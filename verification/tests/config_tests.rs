use wallpaper_carousel::config::{balance_text, AppConfig, Balance, Quote};

#[test]
fn default_config() {
    let c = AppConfig::default();
    assert!(c.quotes.is_empty());
    assert!(c.balance.is_none());
    assert_eq!(c.text_padding, Some(15));
    assert_eq!(c.padding_or_default(), 15);
}

#[test]
fn configured_padding_wins() {
    let c = AppConfig { quotes: Vec::new(), balance: None, text_padding: Some(40) };
    assert_eq!(c.padding_or_default(), 40);
    let d = AppConfig { quotes: Vec::new(), balance: None, text_padding: None };
    assert_eq!(d.padding_or_default(), 15);
}

#[test]
fn quote_pick_needs_a_pool() {
    let empty = AppConfig { quotes: Vec::new(), balance: None, text_padding: None };
    assert_eq!(empty.pick_quote_index(), None);
    let one = AppConfig {
        quotes: vec![Quote { text: "t".to_string(), author: None }],
        balance: None,
        text_padding: None,
    };
    assert_eq!(one.pick_quote_index(), Some(0));
    let three = AppConfig {
        quotes: vec![
            Quote { text: "a".to_string(), author: None },
            Quote { text: "b".to_string(), author: Some("x".to_string()) },
            Quote { text: "c".to_string(), author: None },
        ],
        balance: None,
        text_padding: None,
    };
    for _ in 0..20 {
        let i = three.pick_quote_index().unwrap();
        assert!(i < 3);
    }
}

#[test]
fn balance_text_with_label() {
    assert_eq!(balance_text("123.45", Some("Cash")), "Cash\n123.45");
    assert_eq!(balance_text("123.45", None), "123.45");
}

#[test]
fn balance_struct_carries_command_and_label() {
    let b = Balance { command: "echo 1".to_string(), label: Some("L".to_string()) };
    assert_eq!(b.command, "echo 1");
    assert_eq!(b.label.as_deref(), Some("L"));
}
