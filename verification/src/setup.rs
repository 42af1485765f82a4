//! The setup form's parsing: the one free-text field, split on commas,
//! each label trimmed, at most four kept, and at least one non-empty
//! label required to proceed.
use vstd::prelude::*;
use vstd::string::StrSliceExecFns;
use crate::paths::views;

verus! {

/// The characters trimming strips: the Unicode white-space set, as
/// `str::trim` strips it.
pub open spec fn is_space(c: char) -> bool {
    let n = c as int;
    ||| (0x9 <= n && n <= 0xd)
    ||| n == 0x20
    ||| n == 0x85
    ||| n == 0xa0
    ||| n == 0x1680
    ||| (0x2000 <= n && n <= 0x200a)
    ||| n == 0x2028
    ||| n == 0x2029
    ||| n == 0x202f
    ||| n == 0x205f
    ||| n == 0x3000
}

/// The position of the first comma, if any.
pub open spec fn first_comma(s: Seq<char>) -> Option<int>
    decreases s.len(),
{
    if s.len() == 0 {
        None
    } else if s[0] == ',' {
        Some(0)
    } else {
        match first_comma(s.drop_first()) {
            Some(i) => Some(i + 1),
            None => None,
        }
    }
}

/// The comma-separated pieces of a line, in order; a line without commas
/// is one piece, and every comma separates two (possibly empty) pieces.
pub open spec fn split_commas(s: Seq<char>) -> Seq<Seq<char>>
    decreases s.len(),
{
    let fc = first_comma(s);
    if fc is Some && 0 <= fc->Some_0 < s.len() {
        seq![s.subrange(0, fc->Some_0)] + split_commas(
            s.subrange(fc->Some_0 + 1, s.len() as int),
        )
    } else {
        seq![s]
    }
}

/// A piece with its surrounding blanks stripped.
pub open spec fn trim_spec(s: Seq<char>) -> Seq<char>
    decreases s.len(),
{
    if s.len() == 0 {
        s
    } else if is_space(s[0]) {
        trim_spec(s.drop_first())
    } else if is_space(s.last()) {
        trim_spec(s.drop_last())
    } else {
        s
    }
}

/// What the setup field denotes: its pieces, at most four of them, each
/// trimmed.
pub open spec fn label_pieces(s: Seq<char>) -> Seq<Seq<char>> {
    let pieces = split_commas(s);
    let taken = if pieces.len() > 4 {
        pieces.subrange(0, 4)
    } else {
        pieces
    };
    taken.map_values(|p: Seq<char>| trim_spec(p))
}

/// Whether the field confirms setup: every kept label non-empty after
/// trimming.
pub open spec fn labels_valid(s: Seq<char>) -> bool {
    forall|i: int| 0 <= i < label_pieces(s).len() ==> (#[trigger] label_pieces(s)[i]).len() > 0
}

pub proof fn lemma_first_comma_at(s: Seq<char>, i: int)
    requires
        0 <= i < s.len(),
        s[i] == ',',
        forall|k: int| 0 <= k < i ==> s[k] != ',',
    ensures
        first_comma(s) == Some(i),
    decreases s.len(),
{
    if i > 0 {
        assert(forall|k: int| 0 <= k < s.drop_first().len() ==> s.drop_first()[k] == s[k + 1]);
        lemma_first_comma_at(s.drop_first(), i - 1);
    }
}

pub proof fn lemma_first_comma_none(s: Seq<char>)
    requires
        forall|k: int| 0 <= k < s.len() ==> s[k] != ',',
    ensures
        first_comma(s) is None,
    decreases s.len(),
{
    if s.len() > 0 {
        lemma_first_comma_none(s.drop_first());
    }
}

pub proof fn lemma_split_len(s: Seq<char>)
    ensures
        split_commas(s).len() >= 1,
    decreases s.len(),
{
    let fc = first_comma(s);
    if fc is Some && 0 <= fc->Some_0 < s.len() {
        lemma_split_len(s.subrange(fc->Some_0 + 1, s.len() as int));
    }
}

pub proof fn lemma_trim_range(s: Seq<char>, a: int, b: int)
    requires
        0 <= a <= b < s.len(),
        !is_space(s[a]),
        !is_space(s[b]),
        forall|k: int| 0 <= k < a ==> is_space(#[trigger] s[k]),
        forall|k: int| b < k < s.len() ==> is_space(#[trigger] s[k]),
    ensures
        trim_spec(s) == s.subrange(a, b + 1),
    decreases s.len(),
{
    if a > 0 {
        assert(forall|k: int| 0 <= k < s.drop_first().len() ==> s.drop_first()[k] == s[k + 1]);
        lemma_trim_range(s.drop_first(), a - 1, b - 1);
        assert(s.drop_first().subrange(a - 1, b) =~= s.subrange(a, b + 1));
    } else if b < s.len() - 1 {
        assert(is_space(s.last()));
        lemma_trim_range(s.drop_last(), a, b);
        assert(s.drop_last().subrange(a, b + 1) =~= s.subrange(a, b + 1));
    } else {
        assert(trim_spec(s) == s);
        assert(s.subrange(0, s.len() as int) =~= s);
    }
}

pub proof fn lemma_trim_all_space(s: Seq<char>)
    requires
        forall|k: int| 0 <= k < s.len() ==> is_space(#[trigger] s[k]),
    ensures
        trim_spec(s).len() == 0,
    decreases s.len(),
{
    if s.len() > 0 {
        lemma_trim_all_space(s.drop_first());
    }
}

/// Whether a character is one of the blanks trimming strips.
fn space_char(c: char) -> (r: bool)
    ensures
        r == is_space(c),
{
    let n = c as u32;
    (0x9 <= n && n <= 0xd) || n == 0x20 || n == 0x85 || n == 0xa0 || n == 0x1680 || (0x2000 <= n
        && n <= 0x200a) || n == 0x2028 || n == 0x2029 || n == 0x202f || n == 0x205f || n == 0x3000
}

/// The position of the first non-blank character, or the length.
fn first_nonspace(s: &str, n: usize) -> (a: usize)
    requires
        n == s@.len(),
    ensures
        a <= n,
        forall|k: int| 0 <= k < a ==> is_space(#[trigger] s@[k]),
        a < n ==> !is_space(s@[a as int]),
{
    let mut a: usize = 0;
    while a < n
        invariant
            a <= n,
            n == s@.len(),
            forall|k: int| 0 <= k < a ==> is_space(#[trigger] s@[k]),
        decreases n - a,
    {
        if !space_char(s.get_char(a)) {
            return a;
        }
        a = a + 1;
    }
    a
}

/// The position of the last non-blank character at or after `a`.
fn last_nonspace(s: &str, a: usize, n: usize) -> (b: usize)
    requires
        n == s@.len(),
        a < n,
        !is_space(s@[a as int]),
    ensures
        a <= b < n,
        !is_space(s@[b as int]),
        forall|k: int| b < k < n ==> is_space(#[trigger] s@[k]),
{
    let mut b = n - 1;
    while b > a
        invariant
            a <= b < n,
            n == s@.len(),
            !is_space(s@[a as int]),
            forall|k: int| b < k < n ==> is_space(#[trigger] s@[k]),
        decreases b,
    {
        if !space_char(s.get_char(b)) {
            return b;
        }
        b = b - 1;
    }
    b
}

/// Strips the surrounding blanks from a label.
pub fn trim(s: &str) -> (r: String)
    ensures
        r@ == trim_spec(s@),
{
    let n = s.unicode_len();
    let a = first_nonspace(s, n);
    if a == n {
        proof {
            lemma_trim_all_space(s@);
            assert(trim_spec(s@) =~= Seq::<char>::empty());
        }
        return String::new();
    }
    let b = last_nonspace(s, a, n);
    proof {
        lemma_trim_range(s@, a as int, b as int);
    }
    let piece = s.substring_char(a, b + 1);
    piece.to_owned()
}

/// Finds the first comma at or after `start`.
fn find_comma_from(s: &str, start: usize, n: usize) -> (r: usize)
    requires
        start <= n,
        n == s@.len(),
    ensures
        start <= r <= n,
        forall|k: int| start <= k < r ==> s@[k] != ',',
        r < n ==> s@[r as int] == ',',
{
    let mut j = start;
    while j < n
        invariant
            start <= j <= n,
            n == s@.len(),
            forall|k: int| start <= k < j ==> s@[k] != ',',
        decreases n - j,
    {
        if s.get_char(j) == ',' {
            return j;
        }
        j = j + 1;
    }
    n
}

/// Parses the setup field: the labels before the first four commas (or
/// fewer), each trimmed. `None`, and setup does not advance, when any
/// kept label is empty after trimming.
pub fn parse_categories(input: &String) -> (r: Option<Vec<String>>)
    ensures
        (r is Some) == labels_valid(input@),
        r matches Some(v) ==> views(v@) == label_pieces(input@) && 1 <= v@.len() <= 4,
{
    let s = input.as_str();
    let n = s.unicode_len();
    let mut pieces: Vec<String> = Vec::new();
    let mut start: usize = 0;
    let mut open = true;
    proof {
        assert(s@.subrange(0, n as int) =~= s@);
    }
    while open
        invariant
            n == s@.len(),
            start <= n,
            open ==> split_commas(s@) == views(pieces@) + split_commas(
                s@.subrange(start as int, n as int),
            ),
            !open ==> split_commas(s@) == views(pieces@),
            open ==> views(pieces@).len() == split_commas(s@).len() - split_commas(
                s@.subrange(start as int, n as int),
            ).len(),
            !open ==> pieces@.len() >= 1,
        decreases n - start + (if open {
            1int
        } else {
            0int
        }),
    {
        let ghost rest = s@.subrange(start as int, n as int);
        let j = find_comma_from(s, start, n);
        let piece = s.substring_char(start, j).to_owned();
        proof {
            assert(forall|k: int|
                0 <= k < rest.len() ==> rest[k] == s@[start + k]);
            if j < n {
                lemma_first_comma_at(rest, j - start as int);
                assert(rest.subrange(0, j - start as int) =~= s@.subrange(
                    start as int,
                    j as int,
                ));
                assert(rest.subrange(j - start as int + 1, rest.len() as int) =~= s@.subrange(
                    j + 1,
                    n as int,
                ));
                lemma_split_len(s@.subrange(j + 1, n as int));
            } else {
                lemma_first_comma_none(rest);
                assert(rest =~= s@.subrange(start as int, j as int));
            }
        }
        let ghost pieces0 = views(pieces@);
        pieces.push(piece);
        proof {
            assert(views(pieces@) =~= pieces0.push(s@.subrange(start as int, j as int)));
        }
        if j < n {
            proof {
                assert(split_commas(rest) == seq![s@.subrange(start as int, j as int)]
                    + split_commas(s@.subrange(j + 1, n as int)));
                assert(views(pieces@) + split_commas(s@.subrange(j + 1, n as int))
                    =~= pieces0 + split_commas(rest));
            }
            start = j + 1;
        } else {
            proof {
                assert(split_commas(rest) == seq![s@.subrange(start as int, j as int)]);
                assert(views(pieces@) =~= pieces0 + split_commas(rest));
            }
            open = false;
        }
    }
    // Keep at most the first four pieces, trimmed; any empty label makes
    // the whole field invalid.
    let keep = if pieces.len() > 4 {
        4
    } else {
        pieces.len()
    };
    let ghost taken = if split_commas(s@).len() > 4 {
        split_commas(s@).subrange(0, 4)
    } else {
        split_commas(s@)
    };
    let mut out: Vec<String> = Vec::new();
    let mut i: usize = 0;
    proof {
        assert(taken.len() == keep as int);
        assert(forall|t: int| 0 <= t < keep ==> taken[t] == views(pieces@)[t]);
        assert(label_pieces(input@) =~= taken.map_values(|p: Seq<char>| trim_spec(p)));
    }
    while i < keep
        invariant
            keep <= pieces@.len(),
            keep as int == taken.len(),
            label_pieces(input@) == taken.map_values(|p: Seq<char>| trim_spec(p)),
            forall|t: int| 0 <= t < keep ==> taken[t] == views(pieces@)[t],
            i <= keep,
            out@.len() == i,
            forall|t: int| 0 <= t < i ==> (#[trigger] out@[t])@ == trim_spec(taken[t]),
            forall|t: int| 0 <= t < i ==> (#[trigger] out@[t])@.len() > 0,
        decreases keep - i,
    {
        let t = trim(pieces[i].as_str());
        proof {
            assert(label_pieces(input@) =~= taken.map_values(|p: Seq<char>| trim_spec(p)));
            assert(label_pieces(input@).len() == taken.len());
            assert(t@ == trim_spec(views(pieces@)[i as int]));
            assert(label_pieces(input@)[i as int] == trim_spec(taken[i as int]));
        }
        if t.as_str().unicode_len() == 0 {
            proof {
                assert(label_pieces(input@)[i as int].len() == 0);
                assert(!labels_valid(input@));
            }
            return None;
        }
        out.push(t);
        i = i + 1;
    }
    proof {
        assert(views(out@) =~= label_pieces(input@));
        lemma_split_len(s@);
        assert(labels_valid(input@)) by {
            assert(forall|t: int|
                0 <= t < label_pieces(input@).len() ==> #[trigger] label_pieces(input@)[t]
                    == views(out@)[t]);
        }
    }
    Some(out)
}

} // verus!
