//! Renaming files by stripping a fixed prefix.
//!
//! Among a directory's files, those with a given extension are renamed:
//! the prefix, when the name opens with it, is removed, surrounding
//! whitespace is trimmed, and a name that would become empty is left
//! alone.  Only the renames are computed here; the caller performs them.

use vstd::prelude::*;

verus! {

use crate::analysis::pair_views;
use crate::order::views;
use crate::tree::file_ext_of;

/// Whether `c` is whitespace, after Unicode's `White_Space` property:
/// the ASCII controls tab through carriage return, the space, the next
/// line, and the Unicode spaces and line separators.
pub open spec fn is_ws(c: char) -> bool {
    ||| (9 <= (c as u32) <= 13)
    ||| c == ' '
    ||| (c as u32) == 0x85
    ||| (c as u32) == 0xa0
    ||| (c as u32) == 0x1680
    ||| (0x2000 <= (c as u32) <= 0x200a)
    ||| (c as u32) == 0x2028
    ||| (c as u32) == 0x2029
    ||| (c as u32) == 0x202f
    ||| (c as u32) == 0x205f
    ||| (c as u32) == 0x3000
}

/// `s` without trailing whitespace.
pub open spec fn trim_end_ws(s: Seq<char>) -> Seq<char>
    decreases s.len(),
{
    if s.len() > 0 && is_ws(s.last()) {
        trim_end_ws(s.drop_last())
    } else {
        s
    }
}

/// `s` without leading whitespace.
pub open spec fn trim_start_ws(s: Seq<char>) -> Seq<char>
    decreases s.len(),
{
    if s.len() > 0 && is_ws(s[0]) {
        trim_start_ws(s.skip(1))
    } else {
        s
    }
}

/// `s` without surrounding whitespace.
pub open spec fn trim_ws(s: Seq<char>) -> Seq<char> {
    trim_start_ws(trim_end_ws(s))
}

/// `n` with the prefix removed when it opens with it.
pub open spec fn strip_pre(n: Seq<char>, prefix: Seq<char>) -> Seq<char> {
    if prefix.len() <= n.len() && n.take(prefix.len() as int) == prefix {
        n.skip(prefix.len() as int)
    } else {
        n
    }
}

/// The renamings a prefix-removal run performs: for each file name with
/// the extension, the name and its stripped, trimmed replacement, names
/// that would become empty left out.
pub open spec fn prefix_renames(ns: Seq<Seq<char>>, prefix: Seq<char>, ext: Seq<char>) -> Seq<
    (Seq<char>, Seq<char>),
>
    decreases ns.len(),
{
    if ns.len() == 0 {
        Seq::empty()
    } else {
        let rest = prefix_renames(ns.drop_last(), prefix, ext);
        let n = ns.last();
        if file_ext_of(n) == Some(ext) {
            let t = trim_ws(strip_pre(n, prefix));
            if t.len() > 0 {
                rest.push((n, t))
            } else {
                rest
            }
        } else {
            rest
        }
    }
}

/// The replacement for one name.
fn rename_of(name: &Vec<char>, prefix: &Vec<char>) -> (r: Vec<char>)
    ensures
        r@ == trim_ws(strip_pre(name@, prefix@)),
{
    let stripped_from: usize = if prefix.len() <= name.len() {
        let mut k: usize = 0;
        let mut matches: bool = true;
        proof {
            assert(name@.take(0) =~= prefix@.take(0));
        }
        while k < prefix.len()
            invariant
                k <= prefix@.len() <= name@.len(),
                matches == (name@.take(k as int) == prefix@.take(k as int)),
            decreases prefix@.len() - k,
        {
            let ghost pre_m = matches;
            if (name[k] as u32) != (prefix[k] as u32) {
                matches = false;
            }
            proof {
                if pre_m && (name@[k as int] as u32) == (prefix@[k as int] as u32) {
                    crate::text::lemma_char_eq(name@[k as int], prefix@[k as int]);
                    assert(name@.take(k + 1) =~= prefix@.take(k + 1));
                } else {
                    if name@.take(k + 1) == prefix@.take(k + 1) {
                        assert(name@.take(k + 1)[k as int] == name@[k as int]);
                        assert(name@.take(k as int) =~= name@.take(k + 1).take(k as int));
                        assert(prefix@.take(k as int) =~= prefix@.take(k + 1).take(k as int));
                        assert(name@.take(k as int) == prefix@.take(k as int));
                    }
                    assert(name@.take(k + 1) != prefix@.take(k + 1) || !pre_m || name@[k as int]
                        != prefix@[k as int]);
                }
            }
            k = k + 1;
        }
        proof {
            assert(prefix@.take(prefix@.len() as int) =~= prefix@);
        }
        if matches {
            prefix.len()
        } else {
            0
        }
    } else {
        proof {
            if prefix@.len() <= name@.len() && name@.take(prefix@.len() as int) == prefix@ {
                assert(false);
            }
        }
        0
    };
    let ghost stripped = strip_pre(name@, prefix@);
    proof {
        if stripped_from == 0 {
            assert(name@.skip(0) =~= name@);
        }
        assert(name@.skip(stripped_from as int) == stripped);
    }
    let mut hi: usize = name.len();
    while hi > stripped_from && is_ws_char(name[hi - 1])
        invariant
            stripped_from <= hi <= name@.len(),
            stripped == name@.skip(stripped_from as int),
            trim_end_ws(stripped) == trim_end_ws(name@.subrange(stripped_from as int, hi as int)),
        decreases hi,
    {
        proof {
            let cur = name@.subrange(stripped_from as int, hi as int);
            assert(cur.last() == name@[hi - 1]);
            assert(cur.drop_last() =~= name@.subrange(stripped_from as int, hi - 1));
        }
        hi = hi - 1;
    }
    proof {
        let cur = name@.subrange(stripped_from as int, hi as int);
        if hi > stripped_from {
            assert(cur.last() == name@[hi - 1]);
        }
        assert(trim_end_ws(cur) == cur);
    }
    let mut lo: usize = stripped_from;
    while lo < hi && is_ws_char(name[lo])
        invariant
            stripped_from <= lo <= hi <= name@.len(),
            trim_ws(stripped) == trim_start_ws(name@.subrange(lo as int, hi as int)),
        decreases hi - lo,
    {
        proof {
            let cur = name@.subrange(lo as int, hi as int);
            assert(cur[0] == name@[lo as int]);
            assert(cur.skip(1) =~= name@.subrange(lo + 1, hi as int));
        }
        lo = lo + 1;
    }
    proof {
        let cur = name@.subrange(lo as int, hi as int);
        if lo < hi {
            assert(cur[0] == name@[lo as int]);
        }
        assert(trim_start_ws(cur) == cur);
    }
    crate::text::subrange_chars(name, lo, hi)
}

fn is_ws_char(c: char) -> (r: bool)
    ensures
        r == is_ws(c),
{
    let u: u32 = c as u32;
    (9 <= u && u <= 13) || c == ' ' || u == 0x85 || u == 0xa0 || u == 0x1680 || (0x2000 <= u && u
        <= 0x200a) || u == 0x2028 || u == 0x2029 || u == 0x202f || u == 0x205f || u == 0x3000
}

/// The renamings to perform on a directory's file names: strip the
/// prefix from each name with the extension, trim, and keep the pairs
/// whose new name is non-empty.
pub fn compute_prefix_renames(names: &Vec<String>, prefix: &str, ext: &str) -> (r: Vec<
    (String, String),
>)
    ensures
        pair_views(r@) == prefix_renames(views(names@), prefix@, ext@),
{
    let pv: Vec<char> = crate::text::chars_of(prefix);
    let ev: Vec<char> = crate::text::chars_of(ext);
    let mut out: Vec<(String, String)> = Vec::new();
    let mut i: usize = 0;
    while i < names.len()
        invariant
            i <= names@.len(),
            pv@ == prefix@,
            ev@ == ext@,
            pair_views(out@) == prefix_renames(views(names@).take(i as int), prefix@, ext@),
        decreases names@.len() - i,
    {
        let name: &String = &names[i];
        let ghost pre = pair_views(out@);
        proof {
            assert(views(names@).take(i + 1).drop_last() =~= views(names@).take(i as int));
            assert(views(names@).take(i + 1).last() == names@[i as int]@);
        }
        let has_ext: bool = match crate::tree::file_extension(name.as_str()) {
            Some(e) => {
                let ec: Vec<char> = crate::text::chars_of(e.as_str());
                crate::text::eq_chars(&ec, &ev)
            },
            None => false,
        };
        proof {
            assert(has_ext == (file_ext_of(names@[i as int]@) == Some(ext@)));
        }
        if has_ext {
            let nv: Vec<char> = crate::text::chars_of(name.as_str());
            let t: Vec<char> = rename_of(&nv, &pv);
            if t.len() > 0 {
                let target: String = crate::text::string_of(&t);
                out.push((name.clone(), target));
                proof {
                    assert(pair_views(out@) =~= pre.push(
                        (names@[i as int]@, trim_ws(strip_pre(names@[i as int]@, prefix@))),
                    ));
                }
            }
        }
        i = i + 1;
        proof {
            assert(pair_views(out@) =~= prefix_renames(
                views(names@).take(i as int),
                prefix@,
                ext@,
            ));
        }
    }
    proof {
        assert(views(names@).take(names@.len() as int) =~= views(names@));
    }
    out
}

} // verus!
