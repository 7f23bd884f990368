//! The inclusion grammar: `\lstinputlisting[...]{path/name.cpp}` in document text.
//!
//! An inclusion lies on one line. After the keyword comes the first `{`; the name
//! follows the last `/` after it that still has a `.cpp` and then a `}` behind it on
//! the line, and runs up to the first `.cpp` after that `/`. Scanning resumes after
//! the first `}` that follows that `.cpp`.
use vstd::prelude::*;
use crate::text::{chars_of, find, find_from, lemma_find_from, matches_at, occurs_at};

verus! {

broadcast use vstd::string::group_string_axioms;

/// The keyword that starts an inclusion.
pub open spec fn keyword() -> Seq<char> {
    "\\lstinputlisting"@
}

/// The extension that ends the included file's name.
pub open spec fn extension() -> Seq<char> {
    ".cpp"@
}

/// The end of the line that holds position `s`: its newline, or the end of the text.
pub open spec fn line_end(t: Seq<char>, s: int) -> int {
    match find_from(t, seq!['\n'], s) {
        Some(l) => l,
        None => t.len() as int,
    }
}

/// A `/` at `d` after which, before `l`, come an extension and then a `}`.
pub open spec fn viable_slash(t: Seq<char>, d: int, l: int) -> bool {
    &&& occurs_at(t, d, seq!['/'])
    &&& match find_from(t, extension(), d + 1) {
        Some(e) => e + extension().len() <= l && match find_from(t, seq!['}'], e + extension().len()) {
            Some(c) => c < l,
            None => false,
        },
        None => false,
    }
}

/// The last viable `/` in `[lo, hi)`.
pub open spec fn last_viable(t: Seq<char>, lo: int, hi: int, l: int) -> Option<int>
    decreases hi - lo,
{
    if hi <= lo {
        None
    } else if viable_slash(t, hi - 1, l) {
        Some(hi - 1)
    } else {
        last_viable(t, lo, hi - 1, l)
    }
}

/// The inclusion whose keyword stands at `s`: the name's range and where scanning resumes.
pub open spec fn inclusion_at(t: Seq<char>, s: int) -> Option<(int, int, int)> {
    let l = line_end(t, s);
    match find_from(t, seq!['{'], s + keyword().len()) {
        Some(b) => if b < l {
            match last_viable(t, b + 1, l, l) {
                Some(d) => match find_from(t, extension(), d + 1) {
                    Some(e) => match find_from(t, seq!['}'], e + extension().len()) {
                        Some(c) => Some((d + 1, e, c + 1)),
                        None => None,
                    },
                    None => None,
                },
                None => None,
            }
        } else {
            None
        },
        None => None,
    }
}

/// The name ranges of all inclusions found scanning `t` from `pos`, in order.
pub open spec fn inclusions_from(t: Seq<char>, pos: int) -> Seq<(int, int)>
    decreases t.len() - pos,
{
    if pos < 0 || pos > t.len() {
        Seq::empty()
    } else {
        match find_from(t, keyword(), pos) {
            None => Seq::empty(),
            Some(s) => match inclusion_at(t, s) {
                None => if pos < s + 1 <= t.len() {
                    inclusions_from(t, s + 1)
                } else {
                    Seq::empty()
                },
                Some((lo, hi, stop)) => if pos < stop <= t.len() {
                    seq![(lo, hi)] + inclusions_from(t, stop)
                } else {
                    Seq::empty()
                },
            },
        }
    }
}

/// The names that the inclusions of a document refer to, in order.
pub open spec fn included_names(t: Seq<char>) -> Seq<Seq<char>> {
    inclusions_from(t, 0).map_values(|r: (int, int)| t.subrange(r.0, r.1))
}

fn viable(t: &Vec<char>, d: usize, l: usize) -> (r: bool)
    requires
        l <= t@.len(),
    ensures
        r == viable_slash(t@, d as int, l as int),
{
    let len = t.len();
    let slash = vec!['/'];
    let close = vec!['}'];
    let ext = chars_of(".cpp");
    assert(slash@ =~= seq!['/']);
    assert(close@ =~= seq!['}']);
    if !matches_at(t, d, &slash) {
        return false;
    }
    match find(t, &ext, d + 1) {
        Some(e) => {
            if e + ext.len() > l {
                return false;
            }
            match find(t, &close, e + ext.len()) {
                Some(c) => c < l,
                None => false,
            }
        },
        None => false,
    }
}

fn find_inclusion(t: &Vec<char>, s: usize) -> (r: Option<(usize, usize, usize)>)
    requires
        s <= t@.len(),
    ensures
        match r {
            Some((lo, hi, stop)) => inclusion_at(t@, s as int) == Some((lo as int, hi as int, stop as int))
                && s < lo <= hi < stop <= t@.len(),
            None => inclusion_at(t@, s as int) is None,
        },
{
    proof {
        reveal_strlit("\\lstinputlisting");
        reveal_strlit(".cpp");
    }
    let len = t.len();
    let newline = vec!['\n'];
    let open = vec!['{'];
    let close = vec!['}'];
    let ext = chars_of(".cpp");
    let kw_len: usize = 16;
    assert(newline@ =~= seq!['\n']);
    assert(open@ =~= seq!['{']);
    assert(close@ =~= seq!['}']);
    let l = match find(t, &newline, s) {
        Some(l) => l,
        None => len,
    };
    assert(keyword().len() == 16);
    if len < kw_len || s > len - kw_len {
        assert(find_from(t@, seq!['{'], s + keyword().len()) is None);
        return None;
    }
    let b = match find(t, &open, s + kw_len) {
        Some(b) => b,
        None => return None,
    };
    if b >= l {
        return None;
    }
    let mut hi: usize = l;
    while hi > b + 1
        invariant
            b + 1 <= hi <= l <= len,
            len == t@.len(),
            l == line_end(t@, s as int),
            s < b < l,
            s + keyword().len() <= len,
            find_from(t@, seq!['{'], s + keyword().len()) == Some(b as int),
            ext@ == extension(),
            close@ == seq!['}'],
            last_viable(t@, b + 1, l as int, l as int) == last_viable(t@, b + 1, hi as int, l as int),
        decreases hi,
    {
        if viable(t, hi - 1, l) {
            let d = hi - 1;
            proof {
                lemma_find_from(t@, ext@, d + 1);
            }
            let e = match find(t, &ext, d + 1) {
                Some(e) => e,
                None => return None,
            };
            let c = match find(t, &close, e + ext.len()) {
                Some(c) => c,
                None => return None,
            };
            return Some((d + 1, e, c + 1));
        }
        hi -= 1;
    }
    None
}

/// The names that the inclusions of a document refer to, in the order of the text.
pub fn scan_inclusions(text: &str) -> (r: Vec<String>)
    ensures
        r@.len() == included_names(text@).len(),
        forall|i: int| 0 <= i < r@.len() ==> r@[i]@ == #[trigger] included_names(text@)[i],
{
    proof {
        reveal_strlit("\\lstinputlisting");
    }
    let t = chars_of(text);
    let kw = chars_of("\\lstinputlisting");
    assert(kw@.len() == 16);
    let len = t.len();
    let mut out: Vec<String> = Vec::new();
    let ghost mut done: Seq<(int, int)> = Seq::empty();
    let mut pos: usize = 0;
    assert(done + inclusions_from(t@, 0) =~= inclusions_from(t@, 0));
    loop
        invariant
            pos <= len,
            len == t@.len(),
            t@ == text@,
            kw@ == keyword(),
            keyword().len() == 16,
            inclusions_from(t@, 0) == done + inclusions_from(t@, pos as int),
            out@.len() == done.len(),
            forall|i: int| 0 <= i < done.len() ==> out@[i]@ == t@.subrange(done[i].0, done[i].1),
        decreases len - pos,
    {
        let s = match find(&t, &kw, pos) {
            Some(s) => s,
            None => {
                assert(done + inclusions_from(t@, pos as int) =~= done);
                return out;
            },
        };
        match find_inclusion(&t, s) {
            None => {
                pos = s + 1;
            },
            Some((lo, hi, stop)) => {
                out.push(text.substring_char(lo, hi).to_owned());
                let ghost rest = inclusions_from(t@, stop as int);
                proof {
                    assert(done + (seq![(lo as int, hi as int)] + rest) =~= done.push((lo as int, hi as int)) + rest);
                    done = done.push((lo as int, hi as int));
                }
                pos = stop;
            },
        }
    }
}

} // verus!
