//! The path model: file names as strings, their extensions, and the
//! extension filter that a directory scan applies.
use vstd::prelude::*;
use vstd::string::StrSliceExecFns;
use vstd::string::StringExecFns;

verus! {

/// Lower-cases an ASCII uppercase letter; leaves every other character alone.
pub open spec fn lower_char(c: char) -> char {
    if 65 <= c as int && c as int <= 90 {
        (((c as u8) + 32) as u8) as char
    } else {
        c
    }
}

/// A sequence of characters, lower-cased ASCII-wise.
pub open spec fn lower_seq(s: Seq<char>) -> Seq<char> {
    s.map_values(|c: char| lower_char(c))
}

/// The raster extensions the sorter accepts, compared without ASCII case.
pub open spec fn is_supported_ext(e: Seq<char>) -> bool {
    let l = lower_seq(e);
    ||| l == seq!['j', 'p', 'g']
    ||| l == seq!['j', 'p', 'e', 'g']
    ||| l == seq!['p', 'n', 'g']
    ||| l == seq!['g', 'i', 'f']
    ||| l == seq!['w', 'e', 'b', 'p']
}

/// The position of the last `.` in a name, if any.
pub open spec fn last_dot(s: Seq<char>) -> Option<int>
    decreases s.len(),
{
    if s.len() == 0 {
        None
    } else if s[s.len() - 1] == '.' {
        Some(s.len() - 1)
    } else {
        last_dot(s.drop_last())
    }
}

/// The extension of a file name: what follows the last dot, provided the
/// dot is neither absent nor the leading character (a dot-file has none).
pub open spec fn ext_of(s: Seq<char>) -> Option<Seq<char>> {
    match last_dot(s) {
        None => None,
        Some(i) => if i == 0 {
            None
        } else {
            Some(s.subrange(i + 1, s.len() as int))
        },
    }
}

/// Whether a file name carries one of the supported raster extensions.
pub open spec fn has_supported_ext(s: Seq<char>) -> bool {
    match ext_of(s) {
        Some(e) => is_supported_ext(e),
        None => false,
    }
}

/// The views of a sequence of strings.
pub open spec fn views(v: Seq<String>) -> Seq<Seq<char>> {
    v.map_values(|s: String| s@)
}

/// The destination path of a name sorted into a category: the category's
/// directory, a separator, and the file's own name.
pub open spec fn join_name(cat: Seq<char>, name: Seq<char>) -> Seq<char> {
    cat + seq!['/'] + name
}

/// Builds `cat/name`.
pub fn join_path(cat: &String, name: &String) -> (r: String)
    ensures
        r@ == join_name(cat@, name@),
{
    let r = cat.clone().concat("/").concat(name.as_str());
    proof {
        reveal_strlit("/");
        assert(r@ =~= join_name(cat@, name@));
    }
    r
}

pub proof fn lemma_last_dot_at(s: Seq<char>, i: int)
    requires
        0 <= i < s.len(),
        s[i] == '.',
        forall|k: int| i < k < s.len() ==> s[k] != '.',
    ensures
        last_dot(s) == Some(i),
    decreases s.len(),
{
    if i == s.len() - 1 {
    } else {
        assert(s.drop_last()[i] == '.');
        lemma_last_dot_at(s.drop_last(), i);
    }
}

pub proof fn lemma_last_dot_none(s: Seq<char>)
    requires
        forall|k: int| 0 <= k < s.len() ==> s[k] != '.',
    ensures
        last_dot(s) is None,
    decreases s.len(),
{
    if s.len() > 0 {
        lemma_last_dot_none(s.drop_last());
    }
}

pub proof fn lemma_last_dot_bounds(s: Seq<char>)
    requires
        last_dot(s) is Some,
    ensures
        0 <= last_dot(s)->Some_0 < s.len(),
        s[last_dot(s)->Some_0] == '.',
    decreases s.len(),
{
    if s.len() > 0 && s[s.len() - 1] != '.' {
        lemma_last_dot_bounds(s.drop_last());
    }
}

pub fn ascii_lower(c: char) -> (r: char)
    ensures
        r == lower_char(c),
{
    let n = c as u32;
    if 65 <= n && n <= 90 {
        ((c as u8) + 32) as char
    } else {
        c
    }
}

/// Finds the position of the last dot of a name, scanning from the end.
pub fn find_last_dot(s: &str) -> (r: Option<usize>)
    ensures
        match r {
            Some(i) => last_dot(s@) == Some(i as int),
            None => last_dot(s@) is None,
        },
{
    let len = s.unicode_len();
    let mut j = len;
    while j > 0
        invariant
            j <= len,
            len == s@.len(),
            forall|k: int| j <= k < s@.len() ==> s@[k] != '.',
        decreases j,
    {
        j = j - 1;
        if s.get_char(j) == '.' {
            proof {
                lemma_last_dot_at(s@, j as int);
            }
            return Some(j);
        }
    }
    proof {
        lemma_last_dot_none(s@);
    }
    None
}

/// Decides whether an extension is one of the supported ones, without
/// regard to ASCII case.
pub fn ext_supported(e: &str) -> (b: bool)
    ensures
        b == is_supported_ext(e@),
{
    let len = e.unicode_len();
    if len == 3 {
        let a = ascii_lower(e.get_char(0));
        let b0 = ascii_lower(e.get_char(1));
        let c = ascii_lower(e.get_char(2));
        let r = (a == 'j' && b0 == 'p' && c == 'g') || (a == 'p' && b0 == 'n' && c == 'g') || (a
            == 'g' && b0 == 'i' && c == 'f');
        proof {
            let l = lower_seq(e@);
            assert(l.len() == 3);
            if r {
                if a == 'j' {
                    assert(l =~= seq!['j', 'p', 'g']);
                } else if a == 'p' {
                    assert(l =~= seq!['p', 'n', 'g']);
                } else {
                    assert(l =~= seq!['g', 'i', 'f']);
                }
            } else {
                assert(l[0] == a && l[1] == b0 && l[2] == c);
            }
        }
        r
    } else if len == 4 {
        let a = ascii_lower(e.get_char(0));
        let b0 = ascii_lower(e.get_char(1));
        let c = ascii_lower(e.get_char(2));
        let d = ascii_lower(e.get_char(3));
        let r = (a == 'j' && b0 == 'p' && c == 'e' && d == 'g') || (a == 'w' && b0 == 'e' && c
            == 'b' && d == 'p');
        proof {
            let l = lower_seq(e@);
            assert(l.len() == 4);
            if r {
                if a == 'j' {
                    assert(l =~= seq!['j', 'p', 'e', 'g']);
                } else {
                    assert(l =~= seq!['w', 'e', 'b', 'p']);
                }
            } else {
                assert(l[0] == a && l[1] == b0 && l[2] == c && l[3] == d);
            }
        }
        r
    } else {
        proof {
            let l = lower_seq(e@);
            assert(l.len() != 3 && l.len() != 4);
        }
        false
    }
}

/// Decides whether a file name carries a supported raster extension.
pub fn name_supported(name: &str) -> (b: bool)
    ensures
        b == has_supported_ext(name@),
{
    match find_last_dot(name) {
        None => false,
        Some(i) => {
            if i == 0 {
                false
            } else {
                proof {
                    lemma_last_dot_bounds(name@);
                }
                let len = name.unicode_len();
                let e = name.substring_char(i + 1, len);
                ext_supported(e)
            }
        },
    }
}

/// Keeps, in order, exactly the names with a supported raster extension:
/// what a directory scan retains.
pub fn scan_filter(names: &Vec<String>) -> (r: Vec<String>)
    ensures
        views(r@) == views(names@).filter(|n: Seq<char>| has_supported_ext(n)),
{
    let mut r: Vec<String> = Vec::new();
    let mut i: usize = 0;
    proof {
        reveal(Seq::filter);
        assert(views(names@.subrange(0, 0)) =~= Seq::<Seq<char>>::empty());
    }
    while i < names.len()
        invariant
            i <= names.len(),
            views(r@) == views(names@.subrange(0, i as int)).filter(
                |n: Seq<char>| has_supported_ext(n),
            ),
        decreases names.len() - i,
    {
        let keep = name_supported(names[i].as_str());
        proof {
            reveal(Seq::filter);
            assert(views(names@.subrange(0, i + 1)).drop_last() =~= views(
                names@.subrange(0, i as int),
            ));
            assert(views(names@.subrange(0, i + 1)).last() == names@[i as int]@);
        }
        if keep {
            r.push(names[i].clone());
            proof {
                assert(views(r@) =~= views(names@.subrange(0, i as int)).filter(
                    |n: Seq<char>| has_supported_ext(n),
                ).push(names@[i as int]@));
            }
        }
        i = i + 1;
    }
    proof {
        assert(names@.subrange(0, names@.len() as int) =~= names@);
    }
    r
}

} // verus!
