//! Configuration values the wallpaper generation works from: the quote pool,
//! the optional balance command, and the base text padding.

use vstd::prelude::*;
use crate::carousel::random_below;

verus! {

/// One quotation, with an optional attribution.
#[derive(Clone, Debug)]
pub struct Quote {
    pub text: String,
    pub author: Option<String>,
}

/// The balance feature: a shell command whose trimmed output is rendered,
/// under an optional label.  Running the command is the surrounding
/// program's job.
#[derive(Clone, Debug)]
pub struct Balance {
    pub command: String,
    pub label: Option<String>,
}

/// The configuration of a generation run.
#[derive(Clone, Debug)]
pub struct AppConfig {
    pub quotes: Vec<Quote>,
    pub balance: Option<Balance>,
    pub text_padding: Option<u32>,
}

impl Default for AppConfig {
    /// No quotes, no balance, and the stock padding of 15 pixels.
    fn default() -> (c: AppConfig)
        ensures
            c.quotes@.len() == 0,
            c.balance is None,
            c.text_padding == Option::Some(15u32),
    {
        AppConfig { quotes: Vec::new(), balance: Option::None, text_padding: Option::Some(15) }
    }
}

impl AppConfig {
    /// The base padding a run uses: the configured value, or 15.
    pub fn padding_or_default(&self) -> (p: u32)
        ensures
            p == match self.text_padding {
                Option::Some(v) => v,
                Option::None => 15u32,
            },
    {
        match self.text_padding {
            Option::Some(v) => v,
            Option::None => 15,
        }
    }

    /// Picks a quote uniformly at random from the pool; `None` exactly when
    /// no quotes are configured.
    pub fn pick_quote_index(&self) -> (r: Option<usize>)
        ensures
            r is Some <==> self.quotes@.len() > 0,
            r matches Some(i) ==> i < self.quotes@.len(),
    {
        if self.quotes.len() == 0 {
            Option::None
        } else {
            Option::Some(random_below(self.quotes.len()))
        }
    }
}

/// The text the balance block renders: the command's trimmed output, under
/// its label when one is configured.
pub fn balance_text(value: &str, label: Option<&str>) -> (r: String)
    ensures
        r@ == match label {
            Option::Some(l) => l@ + seq!['\n'] + value@,
            Option::None => value@,
        },
{
    match label {
        Option::Some(l) => {
            let mut s = String::from_str(l);
            s.append("\n");
            s.append(value);
            proof {
                reveal_strlit("\n");
                assert(s@ =~= l@ + seq!['\n'] + value@);
            }
            s
        },
        Option::None => String::from_str(value),
    }
}

} // verus!
