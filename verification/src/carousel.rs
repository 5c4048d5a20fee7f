//! Carousel navigation: deterministic next/previous/random image selection
//! over a directory listing.
//!
//! The caller hands in the plain file names of a directory; this module
//! filters them to supported raster-image extensions, sorts them into a
//! stable lexicographic order, and picks the neighbour (with wraparound) or a
//! random other entry.

use vstd::prelude::*;
use vstd::relations::sorted_by;
use vstd::seq_lib::lemma_sorted_unique;
use vstd::arithmetic::div_mod::{lemma_small_mod, lemma_mod_self_0};
use crate::strutil::{
    lex_le, lex_leq, lemma_lex_total_ordering, lemma_lex_le_total, lemma_lex_le_transitive,
    ascii_lower_seq, ascii_lower_char, str_le, str_eq,
};

verus! {

/// Why no image could be selected.
#[derive(Clone, Copy, Debug, PartialEq, Eq, Structural)]
pub enum CarouselError {
    /// The directory holds no supported image at all.
    NoImages,
    /// The directory holds exactly one candidate: nothing to move to.
    OnlyOneImage,
}

/// The index of the last occurrence of `c` in `s`, or -1 when absent.
pub open spec fn last_pos(s: Seq<char>, c: char) -> int
    decreases s.len(),
{
    if s.len() == 0 {
        -1
    } else if s.last() == c {
        s.len() - 1
    } else {
        last_pos(s.drop_last(), c)
    }
}

/// The extension of a path, as `Path::extension` reads it: the part of the
/// file name after its last dot, unless that dot begins the file name (a
/// hidden file) or there is none.
pub open spec fn extension_of(p: Seq<char>) -> Option<Seq<char>> {
    let ls = last_pos(p, '/');
    let ld = last_pos(p, '.');
    if ld > ls + 1 {
        Option::Some(p.skip(ld + 1))
    } else {
        Option::None
    }
}

/// The raster-image extensions the carousel accepts, lower case.
pub open spec fn supported_extensions() -> Seq<Seq<char>> {
    seq!["jpg"@, "jpeg"@, "png"@, "gif"@, "webp"@, "bmp"@, "ico"@, "tiff"@, "tif"@]
}

/// A path names a supported raster image when its extension, folded to lower
/// case, is one of the supported set.
pub open spec fn is_supported_image(p: Seq<char>) -> bool {
    match extension_of(p) {
        Option::Some(e) => supported_extensions().contains(ascii_lower_seq(e)),
        Option::None => false,
    }
}

/// `is_supported_image` as a function value, shared by every contract.
pub open spec fn supported_pred() -> spec_fn(Seq<char>) -> bool {
    |p: Seq<char>| is_supported_image(p)
}

/// Everything but `cur`, as a function value.
pub open spec fn not_current_pred(cur: Seq<char>) -> spec_fn(Seq<char>) -> bool {
    |p: Seq<char>| p != cur
}

/// The character sequences of a list of paths.
pub open spec fn path_views(s: Seq<String>) -> Seq<Seq<char>> {
    s.map_values(|p: String| p@)
}

/// The index of the first occurrence of `x` in `s`, or -1 when absent.
pub open spec fn first_index_of(s: Seq<Seq<char>>, x: Seq<char>) -> int
    decreases s.len(),
{
    if s.len() == 0 {
        -1
    } else if s[0] == x {
        0
    } else if first_index_of(s.drop_first(), x) == -1 {
        -1
    } else {
        1 + first_index_of(s.drop_first(), x)
    }
}

pub proof fn lemma_first_index_of(s: Seq<Seq<char>>, x: Seq<char>)
    ensures
        (first_index_of(s, x) == -1) <==> !s.contains(x),
        first_index_of(s, x) != -1 ==> 0 <= first_index_of(s, x) < s.len()
            && s[first_index_of(s, x)] == x
            && (forall|j: int| 0 <= j < first_index_of(s, x) ==> s[j] != x),
    decreases s.len(),
{
    if s.len() > 0 && s[0] != x {
        lemma_first_index_of(s.drop_first(), x);
        let rest = s.drop_first();
        if first_index_of(rest, x) == -1 {
            assert forall|i: int| 0 <= i < s.len() implies s[i] != x by {
                if i > 0 {
                    assert(s[i] == rest[i - 1]);
                    assert(!rest.contains(x));
                }
            }
        } else {
            let fi = 1 + first_index_of(rest, x);
            assert(s[fi] == rest[fi - 1]);
            assert forall|j: int| 0 <= j < fi implies s[j] != x by {
                if j > 0 {
                    assert(s[j] == rest[j - 1]);
                }
            }
            assert(s.contains(x)) by {
                assert(s[fi] == x);
            }
        }
    } else if s.len() > 0 {
        assert(s.contains(x)) by {
            assert(s[0] == x);
        }
    }
}

/// The index the carousel moves to: wraparound successor or predecessor of
/// `cur_idx` in a list of length `n`, or the first/last entry when the
/// current image is not in the list (`cur_idx == -1`).
pub open spec fn next_index(n: int, cur_idx: int, backwards: bool) -> int {
    if cur_idx == -1 {
        if backwards {
            n - 1
        } else {
            0
        }
    } else if backwards {
        if cur_idx == 0 {
            n - 1
        } else {
            cur_idx - 1
        }
    } else {
        (cur_idx + 1) % n
    }
}

/// The raster-image extensions the carousel accepts.
pub fn get_supported_image_extensions() -> (r: Vec<&'static str>)
    ensures
        r@.map_values(|s: &str| s@) == supported_extensions(),
{
    let r = vec!["jpg", "jpeg", "png", "gif", "webp", "bmp", "ico", "tiff", "tif"];
    proof {
        assert(r@.map_values(|s: &str| s@) =~= supported_extensions());
    }
    r
}

/// Does the character range `[from, to)` of `s`, folded to ASCII lower case,
/// spell exactly `pat`?
fn range_lower_eq(s: &str, from: usize, to: usize, pat: &str) -> (r: bool)
    requires
        from <= to,
        to <= s@.len(),
    ensures
        r == (ascii_lower_seq(s@.subrange(from as int, to as int)) == pat@),
{
    let ghost sub = s@.subrange(from as int, to as int);
    let plen = pat.unicode_len();
    if to - from != plen {
        proof {
            assert(ascii_lower_seq(sub).len() == sub.len());
        }
        return false;
    }
    let mut k: usize = 0;
    while k < plen
        invariant
            from <= to <= s@.len(),
            to - from == plen,
            plen == pat@.len(),
            sub == s@.subrange(from as int, to as int),
            0 <= k <= plen,
            forall|j: int| 0 <= j < k ==> ascii_lower_seq(sub)[j] == pat@[j],
        decreases plen - k,
    {
        let c = ascii_lower_char(s.get_char(from + k));
        if c != pat.get_char(k) {
            proof {
                assert(sub[k as int] == s@[from + k]);
                assert(ascii_lower_seq(sub)[k as int] != pat@[k as int]);
            }
            return false;
        }
        proof {
            assert(sub[k as int] == s@[from + k]);
        }
        k = k + 1;
    }
    proof {
        assert(ascii_lower_seq(sub) =~= pat@);
    }
    true
}

/// Does the path name a supported raster image?  Case-insensitive on the
/// extension, as the supported set is all ASCII.
pub fn has_supported_extension(p: &str) -> (r: bool)
    ensures
        r == is_supported_image(p@),
{
    let n = p.unicode_len();
    let mut slash: Option<usize> = Option::None;
    let mut dot: Option<usize> = Option::None;
    let mut i: usize = 0;
    while i < n
        invariant
            n == p@.len(),
            0 <= i <= n,
            match slash {
                Option::Some(k) => k == last_pos(p@.take(i as int), '/') && k < i,
                Option::None => last_pos(p@.take(i as int), '/') == -1,
            },
            match dot {
                Option::Some(k) => k == last_pos(p@.take(i as int), '.') && k < i,
                Option::None => last_pos(p@.take(i as int), '.') == -1,
            },
        decreases n - i,
    {
        let c = p.get_char(i);
        proof {
            assert(p@.take(i as int + 1).drop_last() =~= p@.take(i as int));
            assert(p@.take(i as int + 1).last() == p@[i as int]);
        }
        if c == '/' {
            slash = Option::Some(i);
        }
        if c == '.' {
            dot = Option::Some(i);
        }
        i = i + 1;
    }
    proof {
        assert(p@.take(n as int) =~= p@);
    }
    let ext_start: usize = match (slash, dot) {
        (Option::Some(ls), Option::Some(ld)) => {
            if ld > ls + 1 {
                ld + 1
            } else {
                return false;
            }
        },
        (Option::None, Option::Some(ld)) => {
            if ld > 0 {
                ld + 1
            } else {
                return false;
            }
        },
        _ => {
            return false;
        },
    };
    let ghost ext = p@.skip(ext_start as int);
    proof {
        assert(extension_of(p@) == Option::Some(ext));
        assert(ext =~= p@.subrange(ext_start as int, p@.len() as int));
    }
    let r = range_lower_eq(p, ext_start, n, "jpg") || range_lower_eq(p, ext_start, n, "jpeg")
        || range_lower_eq(p, ext_start, n, "png") || range_lower_eq(p, ext_start, n, "gif")
        || range_lower_eq(p, ext_start, n, "webp") || range_lower_eq(p, ext_start, n, "bmp")
        || range_lower_eq(p, ext_start, n, "ico") || range_lower_eq(p, ext_start, n, "tiff")
        || range_lower_eq(p, ext_start, n, "tif");
    proof {
        let low = ascii_lower_seq(ext);
        if r {
            assert(supported_extensions().contains(low));
        } else {
            assert forall|i: int| 0 <= i < supported_extensions().len()
                implies supported_extensions()[i] != low by {
            }
            assert(!supported_extensions().contains(low));
        }
    }
    r
}

/// Keeps the paths that name supported raster images, in order.
pub fn filter_supported(entries: &Vec<String>) -> (r: Vec<String>)
    ensures
        path_views(r@) == path_views(entries@).filter(supported_pred()),
{
    let mut r: Vec<String> = Vec::new();
    let n = entries.len();
    let mut i: usize = 0;
    while i < n
        invariant
            n == entries@.len(),
            0 <= i <= n,
            path_views(r@) == path_views(entries@.take(i as int)).filter(supported_pred()),
        decreases n - i,
    {
        let keep = has_supported_extension(entries[i].as_str());
        let ghost prefix = path_views(entries@.take(i as int));
        let ghost x = entries@[i as int]@;
        proof {
            reveal(Seq::filter);
            assert(path_views(entries@.take(i as int + 1)) =~= prefix.push(x));
            assert(prefix.push(x).drop_last() =~= prefix);
        }
        if keep {
            let item = entries[i].clone();
            r.push(item);
        }
        proof {
            if keep {
                assert(path_views(r@) =~= prefix.filter(supported_pred()).push(x));
            } else {
                assert(path_views(r@) =~= prefix.filter(supported_pred()));
            }
        }
        i = i + 1;
    }
    proof {
        assert(entries@.take(n as int) =~= entries@);
    }
    r
}

/// Inserting an element adds exactly it to a sequence's multiset.
proof fn lemma_seq_insert_to_multiset<A>(s: Seq<A>, j: int, x: A)
    requires
        0 <= j <= s.len(),
    ensures
        s.insert(j, x).to_multiset() == s.to_multiset().insert(x),
{
    broadcast use vstd::seq_lib::group_to_multiset_ensures;
    broadcast use vstd::multiset::group_multiset_axioms;

    let t = s.insert(j, x);
    s.insert_ensures(j, x);
    assert(t.remove(j) =~= s);
    assert(t.remove(j).to_multiset() == t.to_multiset().remove(t[j]));
    assert(t.contains(x)) by {
        assert(t[j] == x);
    }
    assert(t.to_multiset().count(x) > 0);
    assert forall|y: A| t.to_multiset().count(y) == s.to_multiset().insert(x).count(y) by {
        assert(s.to_multiset().count(y) == t.to_multiset().remove(x).count(y));
    }
    assert(t.to_multiset() =~= s.to_multiset().insert(x));
}

/// `path_views` commutes with removal.
proof fn lemma_views_remove(s: Seq<String>, i: int)
    requires
        0 <= i < s.len(),
    ensures
        path_views(s.remove(i)) == path_views(s).remove(i),
{
    s.remove_ensures(i);
    path_views(s).remove_ensures(i);
    assert(path_views(s.remove(i)) =~= path_views(s).remove(i));
}

/// `path_views` commutes with insertion.
proof fn lemma_views_insert(s: Seq<String>, j: int, x: String)
    requires
        0 <= j <= s.len(),
    ensures
        path_views(s.insert(j, x)) == path_views(s).insert(j, x@),
{
    s.insert_ensures(j, x);
    path_views(s).insert_ensures(j, x@);
    assert(path_views(s.insert(j, x)) =~= path_views(s).insert(j, x@));
}

/// Sorts paths into the stable lexicographic order the carousel navigates.
pub fn sort_paths(v: Vec<String>) -> (r: Vec<String>)
    ensures
        path_views(r@) == path_views(v@).sort_by(lex_leq()),
{
    let ghost orig = v@;
    let mut r = v;
    let mut i: usize = 1;
    while i < r.len()
        invariant
            r@.len() == orig.len(),
            i >= 1,
            i <= r@.len() || r@.len() <= 1,
            path_views(r@).to_multiset() == path_views(orig).to_multiset(),
            sorted_by(path_views(r@).take(vstd::math::min(i as int, r@.len() as int)), lex_leq()),
        decreases r@.len() - i,
    {
        let ghost before = r@;
        let x = r.remove(i);
        let ghost mid = r@;
        proof {
            broadcast use vstd::seq_lib::group_to_multiset_ensures;

            lemma_views_remove(before, i as int);
            assert(path_views(mid).take(i as int) =~= path_views(before).take(i as int));
        }
        let mut j: usize = 0;
        while j < i && str_le(r[j].as_str(), x.as_str())
            invariant
                0 <= j <= i,
                i < before.len(),
                mid == r@,
                mid.len() == before.len() - 1,
                x == before[i as int],
                path_views(mid).take(i as int) == path_views(before).take(i as int),
                sorted_by(path_views(before).take(i as int), lex_leq()),
                forall|k: int| 0 <= k < j ==> lex_le(#[trigger] path_views(mid)[k], x@),
            decreases i - j,
        {
            proof {
                assert(path_views(mid)[j as int] == mid[j as int]@);
            }
            j = j + 1;
        }
        proof {
            if j < i {
                assert(path_views(mid)[j as int] == mid[j as int]@);
                assert(!lex_le(path_views(mid)[j as int], x@));
                lemma_lex_le_total(path_views(mid)[j as int], x@);
            }
        }
        let ghost xg = x;
        let ghost xv = x@;
        r.insert(j, x);
        proof {
            broadcast use vstd::seq_lib::group_to_multiset_ensures;
            broadcast use vstd::multiset::group_multiset_axioms;

            lemma_views_insert(mid, j as int, xg);
            lemma_seq_insert_to_multiset(path_views(mid), j as int, xv);
            // The multiset is back where it was: remove then insert of x.
            let bv = path_views(before);
            assert(bv.remove(i as int).to_multiset() == bv.to_multiset().remove(bv[i as int]));
            assert(bv[i as int] == xv);
            assert(bv.contains(xv)) by {
                assert(bv[i as int] == xv);
            }
            assert(bv.to_multiset().count(xv) > 0);
            assert(bv.to_multiset().remove(xv).insert(xv) =~= bv.to_multiset());
            assert(path_views(r@).to_multiset() == path_views(orig).to_multiset());

            // The freshly inserted prefix of length i + 1 is sorted.
            let np = path_views(r@).take(i as int + 1);
            let op = path_views(before).take(i as int);
            path_views(mid).insert_ensures(j as int, xv);
            assert forall|a: int| 0 <= a < i implies op[a] == #[trigger] path_views(mid)[a] by {
                assert(path_views(mid).take(i as int)[a] == path_views(mid)[a]);
            }
            assert forall|a: int, b: int| 0 <= a < b < np.len() implies #[trigger] lex_leq()(
                np[a],
                np[b],
            ) by {
                assert(np[a] == path_views(mid).insert(j as int, xv)[a]);
                assert(np[b] == path_views(mid).insert(j as int, xv)[b]);
                let ja = j as int;
                if a < ja && b < ja {
                    assert(np[a] == op[a] && np[b] == op[b]);
                    assert(lex_leq()(op[a], op[b]));
                } else if a < ja && b == ja {
                    assert(np[a] == op[a] && np[b] == xv);
                    assert(lex_le(path_views(mid)[a], xv));
                } else if a < ja && b > ja {
                    assert(np[a] == op[a] && np[b] == op[b - 1]);
                    assert(lex_leq()(op[a], op[b - 1]));
                } else if a == ja && b > ja {
                    assert(np[a] == xv && np[b] == op[b - 1]);
                    assert(j < i);
                    assert(lex_le(xv, op[ja]));
                    if b - 1 > ja {
                        assert(lex_leq()(op[ja], op[b - 1]));
                        lemma_lex_le_transitive(xv, op[ja], op[b - 1]);
                    }
                } else {
                    assert(a > ja && b > ja);
                    assert(np[a] == op[a - 1] && np[b] == op[b - 1]);
                    assert(lex_leq()(op[a - 1], op[b - 1]));
                }
            }
            assert(sorted_by(np, lex_leq()));
        }
        i = i + 1;
    }
    proof {
        lemma_lex_total_ordering();
        path_views(orig).lemma_sort_by_ensures(lex_leq());
        assert(path_views(r@).take(vstd::math::min(i as int, r@.len() as int)) =~= path_views(r@));
        lemma_sorted_unique(path_views(r@), path_views(orig).sort_by(lex_leq()), lex_leq());
    }
    r
}

/// Draws a uniformly random index below `n`.
///
/// Relies on `rand::random_range`: a draw from the half-open range `0..n`,
/// which panics only when the range is empty.
#[verifier::external_body]
pub(crate) fn random_below(n: usize) -> (r: usize)
    requires
        n >= 1,
    ensures
        r < n,
{
    rand::random_range(0..n)
}

/// Finds the index of `current` in the sorted list, as the first occurrence,
/// or reports that it is absent.
fn position_of(sorted: &Vec<String>, current: &str) -> (r: Option<usize>)
    ensures
        match r {
            Option::Some(k) => k == first_index_of(path_views(sorted@), current@) && k
                < sorted@.len(),
            Option::None => first_index_of(path_views(sorted@), current@) == -1,
        },
{
    let ghost views = path_views(sorted@);
    let n = sorted.len();
    let mut k: usize = 0;
    while k < n
        invariant
            n == sorted@.len(),
            views == path_views(sorted@),
            0 <= k <= n,
            forall|j: int| 0 <= j < k ==> #[trigger] views[j] != current@,
        decreases n - k,
    {
        if str_eq(sorted[k].as_str(), current) {
            proof {
                lemma_first_index_of(views, current@);
                assert(views[k as int] == sorted@[k as int]@);
                assert(views.contains(current@)) by {
                    assert(views[k as int] == current@);
                }
                let fi = first_index_of(views, current@);
                assert(fi == k as int) by {
                    assert(views[fi] == current@);
                }
            }
            return Option::Some(k);
        }
        proof {
            assert(views[k as int] == sorted@[k as int]@);
        }
        k = k + 1;
    }
    proof {
        lemma_first_index_of(views, current@);
        if views.contains(current@) {
            let w = choose|w: int| 0 <= w < views.len() && views[w] == current@;
            assert(views[w] != current@);
        }
    }
    Option::None
}

/// Moves one step forward or backward through the sorted, supported images
/// of a directory listing, wrapping around at the ends.  When `current` is
/// not among them the walk starts at the first (forward) or last (backward)
/// entry.  Fails when fewer than two images are present.
pub fn find_next_image(current: &str, backwards: bool, entries: &Vec<String>) -> (res: Result<
    String,
    CarouselError,
>)
    ensures
        ({
            let fil = path_views(entries@).filter(supported_pred());
            let sorted = fil.sort_by(lex_leq());
            &&& (res == Result::<String, CarouselError>::Err(CarouselError::NoImages) <==> fil.len()
                == 0)
            &&& (res == Result::<String, CarouselError>::Err(CarouselError::OnlyOneImage) <==> fil.len()
                == 1)
            &&& (res matches Ok(p) ==> fil.len() >= 2 && p@ == sorted[next_index(
                sorted.len() as int,
                first_index_of(sorted, current@),
                backwards,
            )])
            &&& (fil.len() >= 2 ==> res matches Ok(_))
        }),
{
    let fil = filter_supported(entries);
    let ghost filv = path_views(entries@).filter(supported_pred());
    if fil.len() == 0 {
        return Result::Err(CarouselError::NoImages);
    }
    let sorted = sort_paths(fil);
    let ghost sortedv = filv.sort_by(lex_leq());
    proof {
        broadcast use vstd::seq_lib::group_to_multiset_ensures;

        lemma_lex_total_ordering();
        filv.lemma_sort_by_ensures(lex_leq());
        assert(filv.len() == filv.to_multiset().len());
        assert(sortedv.len() == sortedv.to_multiset().len());
        assert(sortedv.len() == filv.len());
    }
    if sorted.len() == 1 {
        return Result::Err(CarouselError::OnlyOneImage);
    }
    let n = sorted.len();
    let idx = position_of(&sorted, current);
    let ni: usize = match idx {
        Option::Some(k) => {
            if backwards {
                if k == 0 {
                    n - 1
                } else {
                    k - 1
                }
            } else {
                proof {
                    if k + 1 < n {
                        lemma_small_mod((k + 1) as nat, n as nat);
                    } else {
                        lemma_mod_self_0(n as int);
                    }
                }
                (k + 1) % n
            }
        },
        Option::None => {
            if backwards {
                n - 1
            } else {
                0
            }
        },
    };
    let out = sorted[ni].clone();
    proof {
        assert(out@ == path_views(sorted@)[ni as int]);
    }
    Result::Ok(out)
}

/// Picks a uniformly random supported image other than the current one.
/// Fails when the directory has no supported image, or none besides the
/// current one.
pub fn find_random_image(current: &str, entries: &Vec<String>) -> (res: Result<
    String,
    CarouselError,
>)
    ensures
        ({
            let fil = path_views(entries@).filter(supported_pred());
            let sorted = fil.sort_by(lex_leq());
            let cands = sorted.filter(not_current_pred(current@));
            &&& (res == Result::<String, CarouselError>::Err(CarouselError::NoImages) <==> fil.len()
                == 0)
            &&& (res == Result::<String, CarouselError>::Err(CarouselError::OnlyOneImage) <==> (
            fil.len() > 0 && cands.len() == 0))
            &&& (res matches Ok(p) ==> cands.contains(p@) && p@ != current@)
            &&& (cands.len() > 0 ==> res matches Ok(_))
        }),
{
    let fil = filter_supported(entries);
    let ghost filv = path_views(entries@).filter(supported_pred());
    if fil.len() == 0 {
        proof {
            broadcast use vstd::seq_lib::group_to_multiset_ensures;

            reveal(Seq::filter);
            lemma_lex_total_ordering();
            filv.lemma_sort_by_ensures(lex_leq());
            assert(filv.len() == filv.to_multiset().len());
            assert(filv.sort_by(lex_leq()).len() == filv.sort_by(lex_leq()).to_multiset().len());
            assert(filv.sort_by(lex_leq()).len() == 0);
        }
        return Result::Err(CarouselError::NoImages);
    }
    let sorted = sort_paths(fil);
    let ghost sortedv = filv.sort_by(lex_leq());

    // Drop the current image from the candidates.
    let mut cands: Vec<String> = Vec::new();
    let n = sorted.len();
    let mut i: usize = 0;
    while i < n
        invariant
            n == sorted@.len(),
            sortedv == path_views(sorted@),
            0 <= i <= n,
            path_views(cands@) == sortedv.take(i as int).filter(not_current_pred(current@)),
        decreases n - i,
    {
        let keep = !str_eq(sorted[i].as_str(), current);
        let ghost prefix = sortedv.take(i as int);
        let ghost x = sorted@[i as int]@;
        proof {
            reveal(Seq::filter);
            assert(sortedv.take(i as int + 1) =~= prefix.push(x));
            assert(prefix.push(x).drop_last() =~= prefix);
        }
        if keep {
            let item = sorted[i].clone();
            cands.push(item);
        }
        proof {
            if keep {
                assert(path_views(cands@) =~= prefix.filter(not_current_pred(current@)).push(x));
            } else {
                assert(path_views(cands@) =~= prefix.filter(not_current_pred(current@)));
            }
        }
        i = i + 1;
    }
    proof {
        assert(sortedv.take(n as int) =~= sortedv);
    }
    if cands.len() == 0 {
        return Result::Err(CarouselError::OnlyOneImage);
    }
    let k = random_below(cands.len());
    let out = cands[k].clone();
    proof {
        let cv = sortedv.filter(not_current_pred(current@));
        assert(out@ == cv[k as int]);
        assert(cv.contains(out@)) by {
            assert(cv[k as int] == out@);
        }
        broadcast use vstd::seq_lib::group_filter_ensures;

        assert(not_current_pred(current@)(cv[k as int]));
    }
    Result::Ok(out)
}

/// Stepping forward and then backward from the same image, over one and the
/// same listing with at least two distinct images, returns to that image.
pub proof fn lemma_forward_backward_round_trip(sorted: Seq<Seq<char>>, cur: Seq<char>)
    requires
        sorted.no_duplicates(),
        sorted.len() >= 2,
        sorted.contains(cur),
    ensures
        ({
            let n = sorted.len() as int;
            let f = sorted[next_index(n, first_index_of(sorted, cur), false)];
            sorted[next_index(n, first_index_of(sorted, f), true)] == cur
        }),
{
    let n = sorted.len() as int;
    lemma_first_index_of(sorted, cur);
    let i = first_index_of(sorted, cur);
    assert(0 <= i < n);
    if i + 1 < n {
        lemma_small_mod((i + 1) as nat, n as nat);
    } else {
        lemma_mod_self_0(n);
    }
    let ni = next_index(n, i, false);
    assert(0 <= ni < n);
    let f = sorted[ni];
    lemma_first_index_of(sorted, f);
    assert(sorted.contains(f)) by {
        assert(sorted[ni] == f);
    }
    let fi = first_index_of(sorted, f);
    assert(fi == ni) by {
        assert(sorted[fi] == f);
    }
    assert(sorted[next_index(n, fi, true)] == cur);
}

} // verus!
