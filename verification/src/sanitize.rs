//! Filename sanitization for constrained filesystems.
//!
//! A filename is split into stem and extension at the last period.  In the
//! stem every forbidden character is replaced, trailing spaces and periods
//! are stripped, an empty stem becomes the replacement character, and a stem
//! equal (case-insensitively) to a reserved device name gets the replacement
//! character appended.  The extension is cleaned of forbidden characters,
//! periods and spaces.  Finally the stem is truncated so that the whole name
//! stays within the maximum filename length, re-applying the stem fixups
//! that truncation can undo.

use vstd::prelude::*;

verus! {

/// Characters that may not appear anywhere in a sanitized filename:
/// the printable set `< > : " / \ | ? *`, the ASCII controls, and DEL.
pub open spec fn is_forbidden(c: char) -> bool {
    ||| c == '<'
    ||| c == '>'
    ||| c == ':'
    ||| c == '"'
    ||| c == '/'
    ||| c == '\\'
    ||| c == '|'
    ||| c == '?'
    ||| c == '*'
    ||| (c as u32) < 32
    ||| (c as u32) == 127
}

/// Characters that may not appear in a sanitized extension: the forbidden
/// set plus the period and the space.
pub open spec fn is_ext_forbidden(c: char) -> bool {
    is_forbidden(c) || c == '.' || c == ' '
}

/// Whether `c` occurs in `s`.
pub open spec fn contains_char(s: Seq<char>, c: char) -> bool {
    exists|i: int| 0 <= i < s.len() && s[i] == c
}

/// The part of `s` before its last period; all of `s` when it has none.
pub open spec fn stem_of(s: Seq<char>) -> Seq<char>
    decreases s.len(),
{
    if !contains_char(s, '.') {
        s
    } else if s.len() > 0 && s.last() == '.' {
        s.take(s.len() - 1)
    } else if s.len() > 0 {
        stem_of(s.take(s.len() - 1))
    } else {
        s
    }
}

/// The part of `s` after its last period; empty when it has none.
pub open spec fn ext_of(s: Seq<char>) -> Seq<char>
    decreases s.len(),
{
    if !contains_char(s, '.') {
        Seq::empty()
    } else if s.len() > 0 && s.last() == '.' {
        Seq::empty()
    } else if s.len() > 0 {
        ext_of(s.take(s.len() - 1)).push(s.last())
    } else {
        Seq::empty()
    }
}

/// The stem with every forbidden character replaced by `_`.
pub open spec fn clean_stem(s: Seq<char>) -> Seq<char> {
    Seq::new(s.len(), |i: int| if is_forbidden(s[i]) { '_' } else { s[i] })
}

/// The extension with every forbidden character, period and space
/// replaced by `_`.
pub open spec fn clean_ext(s: Seq<char>) -> Seq<char> {
    Seq::new(s.len(), |i: int| if is_ext_forbidden(s[i]) { '_' } else { s[i] })
}

/// `s` with trailing spaces and periods removed.
pub open spec fn trim_tail(s: Seq<char>) -> Seq<char>
    decreases s.len(),
{
    if s.len() > 0 && (s.last() == ' ' || s.last() == '.') {
        trim_tail(s.take(s.len() - 1))
    } else {
        s
    }
}

/// An empty sequence becomes the single replacement character.
pub open spec fn fix_empty(s: Seq<char>) -> Seq<char> {
    if s.len() == 0 {
        seq!['_']
    } else {
        s
    }
}

/// Whether `c` is `lower` in either case; `lower` must be a lowercase
/// ASCII letter.
pub open spec fn ci_eq(c: char, lower: char) -> bool {
    c == lower || (c as u32) + 32 == (lower as u32)
}

/// Whether `c` is an ASCII digit from `1` to `9`.
pub open spec fn is_pos_digit(c: char) -> bool {
    49 <= (c as u32) <= 57
}

/// Whether `s` matches a reserved device name, case-insensitively:
/// `CON`, `PRN`, `AUX`, `NUL`, `COM1` to `COM9`, `LPT1` to `LPT9`.
pub open spec fn is_reserved(s: Seq<char>) -> bool {
    ||| (s.len() == 3 && ci_eq(s[0], 'c') && ci_eq(s[1], 'o') && ci_eq(s[2], 'n'))
    ||| (s.len() == 3 && ci_eq(s[0], 'p') && ci_eq(s[1], 'r') && ci_eq(s[2], 'n'))
    ||| (s.len() == 3 && ci_eq(s[0], 'a') && ci_eq(s[1], 'u') && ci_eq(s[2], 'x'))
    ||| (s.len() == 3 && ci_eq(s[0], 'n') && ci_eq(s[1], 'u') && ci_eq(s[2], 'l'))
    ||| (s.len() == 4 && ci_eq(s[0], 'c') && ci_eq(s[1], 'o') && ci_eq(s[2], 'm') && is_pos_digit(
        s[3],
    ))
    ||| (s.len() == 4 && ci_eq(s[0], 'l') && ci_eq(s[1], 'p') && ci_eq(s[2], 't') && is_pos_digit(
        s[3],
    ))
}

/// A reserved stem gets the replacement character appended.
pub open spec fn fix_reserved(s: Seq<char>) -> Seq<char> {
    if is_reserved(s) {
        s.push('_')
    } else {
        s
    }
}

/// The room left for the stem once the extension and, if one is present,
/// its separating period are reserved out of the maximum filename length.
pub open spec fn max_stem_len(ext_len: nat) -> nat {
    if ext_len == 0 {
        255
    } else if ext_len <= 254 {
        (254 - ext_len) as nat
    } else {
        0
    }
}

/// Truncate an already fixed-up stem to `max` characters, re-applying the
/// trimming, non-emptiness and reserved-name fixups that truncation can
/// expose.  A stem that already fits is returned unchanged.
pub open spec fn truncate_stem(s: Seq<char>, max: nat) -> Seq<char> {
    if s.len() <= max {
        s
    } else {
        let t = fix_empty(trim_tail(s.take(max as int)));
        if is_reserved(t) {
            if t.len() < max {
                t.push('_')
            } else if max > 0 {
                t.take(t.len() - 1).push('_')
            } else {
                t
            }
        } else {
            t
        }
    }
}

/// The fully sanitized stem for a raw stem and a room of `max` characters.
pub open spec fn sanitize_stem(stem: Seq<char>, max: nat) -> Seq<char> {
    truncate_stem(fix_reserved(fix_empty(trim_tail(clean_stem(stem)))), max)
}

/// The sanitized filename: sanitized stem, then, when the extension is
/// non-empty, a period and the cleaned extension.
pub open spec fn sanitize_name(s: Seq<char>) -> Seq<char> {
    let ce = clean_ext(ext_of(s));
    let fs = sanitize_stem(stem_of(s), max_stem_len(ce.len()));
    if ce.len() == 0 {
        fs
    } else {
        fs + seq!['.'] + ce
    }
}

fn is_forbidden_char(c: char) -> (r: bool)
    ensures
        r == is_forbidden(c),
{
    let u: u32 = c as u32;
    c == '<' || c == '>' || c == ':' || c == '"' || c == '/' || c == '\\' || c == '|' || c == '?'
        || c == '*' || u < 32 || u == 127
}

fn is_ext_forbidden_char(c: char) -> (r: bool)
    ensures
        r == is_ext_forbidden(c),
{
    is_forbidden_char(c) || c == '.' || c == ' '
}

fn ci_eq_char(c: char, lower: char) -> (r: bool)
    ensures
        r == ci_eq(c, lower),
{
    let u: u32 = c as u32;
    c == lower || u + 32 == (lower as u32)
}

fn is_pos_digit_char(c: char) -> (r: bool)
    ensures
        r == is_pos_digit(c),
{
    let u: u32 = c as u32;
    49 <= u && u <= 57
}

/// Whether the characters of `v` form a reserved device name.
pub fn is_reserved_chars(v: &Vec<char>) -> (r: bool)
    ensures
        r == is_reserved(v@),
{
    if v.len() == 3 {
        let a: char = v[0];
        let b: char = v[1];
        let c: char = v[2];
        (ci_eq_char(a, 'c') && ci_eq_char(b, 'o') && ci_eq_char(c, 'n')) || (ci_eq_char(a, 'p')
            && ci_eq_char(b, 'r') && ci_eq_char(c, 'n')) || (ci_eq_char(a, 'a') && ci_eq_char(
            b,
            'u',
        ) && ci_eq_char(c, 'x')) || (ci_eq_char(a, 'n') && ci_eq_char(b, 'u') && ci_eq_char(
            c,
            'l',
        ))
    } else if v.len() == 4 {
        let a: char = v[0];
        let b: char = v[1];
        let c: char = v[2];
        let d: char = v[3];
        (ci_eq_char(a, 'c') && ci_eq_char(b, 'o') && ci_eq_char(c, 'm') && is_pos_digit_char(d))
            || (ci_eq_char(a, 'l') && ci_eq_char(b, 'p') && ci_eq_char(c, 't')
            && is_pos_digit_char(d))
    } else {
        false
    }
}

/// Split `v` at its last period into stem and extension.
fn split_name(v: &Vec<char>) -> (r: (Vec<char>, Vec<char>))
    ensures
        r.0@ == stem_of(v@),
        r.1@ == ext_of(v@),
{
    let n: usize = v.len();
    let mut dot: usize = n;
    let mut k: usize = n;
    while k > 0 && dot == n
        invariant
            k <= n,
            n == v@.len(),
            dot == n ==> forall|j: int| k <= j < n ==> v@[j] != '.',
            dot != n ==> dot < n && v@[dot as int] == '.' && forall|j: int|
                dot < j < n ==> v@[j] != '.',
        decreases k,
    {
        k = k - 1;
        if v[k] == '.' {
            dot = k;
        }
    }
    if dot == n {
        proof {
            lemma_split_no_dot(v@);
        }
        let mut stem: Vec<char> = Vec::new();
        let mut i: usize = 0;
        while i < n
            invariant
                n == v@.len(),
                i <= n,
                stem@ == v@.take(i as int),
            decreases n - i,
        {
            stem.push(v[i]);
            i = i + 1;
            proof {
                assert(stem@ =~= v@.take(i as int));
            }
        }
        proof {
            assert(v@.take(n as int) =~= v@);
        }
        (stem, Vec::new())
    } else {
        proof {
            lemma_split_at_last_dot(v@, dot as int);
        }
        let mut stem: Vec<char> = Vec::new();
        let mut i: usize = 0;
        while i < dot
            invariant
                dot <= v@.len(),
                i <= dot,
                stem@ == v@.take(i as int),
            decreases dot - i,
        {
            stem.push(v[i]);
            i = i + 1;
            proof {
                assert(stem@ =~= v@.take(i as int));
            }
        }
        let mut ext: Vec<char> = Vec::new();
        let mut j: usize = dot + 1;
        while j < n
            invariant
                n == v@.len(),
                dot < n,
                dot + 1 <= j <= n,
                ext@ == v@.subrange(dot + 1, j as int),
            decreases n - j,
        {
            ext.push(v[j]);
            j = j + 1;
            proof {
                assert(ext@ =~= v@.subrange(dot + 1, j as int));
            }
        }
        proof {
            assert(v@.subrange(dot + 1, n as int) =~= v@.skip(dot + 1));
        }
        (stem, ext)
    }
}

/// When `s` has no period, the stem is `s` itself and the extension empty.
proof fn lemma_split_no_dot(s: Seq<char>)
    requires
        !contains_char(s, '.'),
    ensures
        stem_of(s) == s,
        ext_of(s) == Seq::<char>::empty(),
{
}

/// When the last period of `s` stands at `p`, the stem is everything
/// before `p` and the extension everything after it.
proof fn lemma_split_at_last_dot(s: Seq<char>, p: int)
    requires
        0 <= p < s.len(),
        s[p] == '.',
        forall|j: int| p < j < s.len() ==> s[j] != '.',
    ensures
        stem_of(s) == s.take(p),
        ext_of(s) == s.skip(p + 1),
    decreases s.len(),
{
    assert(contains_char(s, '.'));
    if p == s.len() - 1 {
        assert(s.last() == '.');
        assert(ext_of(s) =~= s.skip(p + 1));
    } else {
        assert(s.last() != '.');
        let t = s.take(s.len() - 1);
        assert(t[p] == '.');
        lemma_split_at_last_dot(t, p);
        assert(t.take(p) =~= s.take(p));
        assert(ext_of(s) == ext_of(t).push(s.last()));
        assert(t.skip(p + 1).push(s.last()) =~= s.skip(p + 1));
    }
}

/// Replace every forbidden character of the stem in place.
fn clean_stem_chars(v: &mut Vec<char>)
    ensures
        final(v)@ == clean_stem(old(v)@),
{
    let n: usize = v.len();
    let mut i: usize = 0;
    while i < n
        invariant
            n == v@.len(),
            i <= n,
            v@.len() == old(v)@.len(),
            forall|j: int| 0 <= j < i ==> v@[j] == clean_stem(old(v)@)[j],
            forall|j: int| i <= j < n ==> v@[j] == old(v)@[j],
        decreases n - i,
    {
        if is_forbidden_char(v[i]) {
            v.set(i, '_');
        }
        i = i + 1;
    }
    proof {
        assert(v@ =~= clean_stem(old(v)@));
    }
}

/// Replace every character the extension may not hold in place.
fn clean_ext_chars(v: &mut Vec<char>)
    ensures
        final(v)@ == clean_ext(old(v)@),
{
    let n: usize = v.len();
    let mut i: usize = 0;
    while i < n
        invariant
            n == v@.len(),
            i <= n,
            v@.len() == old(v)@.len(),
            forall|j: int| 0 <= j < i ==> v@[j] == clean_ext(old(v)@)[j],
            forall|j: int| i <= j < n ==> v@[j] == old(v)@[j],
        decreases n - i,
    {
        if is_ext_forbidden_char(v[i]) {
            v.set(i, '_');
        }
        i = i + 1;
    }
    proof {
        assert(v@ =~= clean_ext(old(v)@));
    }
}

/// Drop trailing spaces and periods.
fn trim_tail_chars(v: &mut Vec<char>)
    ensures
        final(v)@ == trim_tail(old(v)@),
{
    loop
        invariant
            trim_tail(v@) == trim_tail(old(v)@),
        ensures
            v@ == trim_tail(old(v)@),
        decreases v@.len(),
    {
        let n: usize = v.len();
        if n == 0 {
            break ;
        }
        let c: char = v[n - 1];
        if c == ' ' || c == '.' {
            let ghost pre = v@;
            v.pop();
            proof {
                assert(v@ =~= pre.take(pre.len() - 1));
                assert(trim_tail(pre) == trim_tail(v@));
            }
        } else {
            break ;
        }
    }
}

/// The stem fixups before truncation: trim, replace an empty stem, append
/// to a reserved one.
fn fixup_stem_chars(v: &mut Vec<char>)
    ensures
        final(v)@ == fix_reserved(fix_empty(trim_tail(old(v)@))),
{
    trim_tail_chars(v);
    if v.len() == 0 {
        v.push('_');
    }
    if is_reserved_chars(v) {
        v.push('_');
    }
}

/// Sanitize the characters of one filename.
pub fn sanitize_filename_chars(v: &Vec<char>) -> (r: Vec<char>)
    ensures
        r@ == sanitize_name(v@),
{
    let (mut stem, mut ext) = split_name(v);
    clean_stem_chars(&mut stem);
    fixup_stem_chars(&mut stem);
    clean_ext_chars(&mut ext);
    let ghost s0 = stem@;

    let max: usize = if ext.len() == 0 {
        255
    } else if ext.len() <= 254 {
        254 - ext.len()
    } else {
        0
    };
    assert(max == max_stem_len(ext@.len()));

    if stem.len() > max {
        stem.truncate(max);
        trim_tail_chars(&mut stem);
        if stem.len() == 0 {
            stem.push('_');
            proof {
                assert(stem@ =~= fix_empty(trim_tail(s0.take(max as int))));
            }
        }
        let ghost t = fix_empty(trim_tail(s0.take(max as int)));
        assert(stem@ == t);
        if is_reserved_chars(&stem) {
            if stem.len() < max {
                stem.push('_');
            } else if max > 0 {
                stem.pop();
                stem.push('_');
                proof {
                    assert(stem@ =~= t.take(t.len() - 1).push('_'));
                }
            }
        }
        assert(stem@ == truncate_stem(s0, max as nat));
    }
    assert(stem@ == sanitize_stem(stem_of(v@), max as nat));

    if ext.len() == 0 {
        stem
    } else {
        let mut out: Vec<char> = stem;
        out.push('.');
        let mut j: usize = 0;
        let ghost pre = out@;
        while j < ext.len()
            invariant
                j <= ext@.len(),
                out@ == pre + ext@.take(j as int),
            decreases ext@.len() - j,
        {
            out.push(ext[j]);
            j = j + 1;
            proof {
                assert(out@ =~= pre + ext@.take(j as int));
            }
        }
        proof {
            assert(ext@.take(ext@.len() as int) =~= ext@);
            assert(out@ =~= sanitize_name(v@));
        }
        out
    }
}

/// Sanitize one filename given as a string.
pub fn sanitize_filename_string(filename: &str) -> (r: String)
    ensures
        r@ == sanitize_name(filename@),
{
    let v: Vec<char> = crate::text::chars_of(filename);
    let s: Vec<char> = sanitize_filename_chars(&v);
    crate::text::string_of(&s)
}

/// Sanitize the last component of a path written with `/` separators; a
/// path whose last component is empty is returned unchanged.
pub fn sanitize_pathbuf_for_fat32(path: &str) -> (r: String)
    ensures
        ({
            let p = path@;
            let k = if contains_char(p, '/') {
                last_slash_index(p) + 1
            } else {
                0
            };
            if p.skip(k).len() == 0 {
                r@ == p
            } else {
                r@ == p.take(k) + sanitize_name(p.skip(k))
            }
        }),
{
    let v: Vec<char> = crate::text::chars_of(path);
    let n: usize = v.len();
    let mut slash: usize = n;
    let mut k: usize = n;
    while k > 0 && slash == n
        invariant
            k <= n,
            n == v@.len(),
            slash == n ==> forall|j: int| k <= j < n ==> v@[j] != '/',
            slash != n ==> slash < n && v@[slash as int] == '/' && forall|j: int|
                slash < j < n ==> v@[j] != '/',
        decreases k,
    {
        k = k - 1;
        if v[k] == '/' {
            slash = k;
        }
    }
    let start: usize = if slash == n {
        proof {
            if contains_char(v@, '/') {
                let i = choose|i: int| 0 <= i < v@.len() && v@[i] == '/';
                assert(false);
            }
        }
        0
    } else {
        proof {
            lemma_last_slash(v@, slash as int);
        }
        slash + 1
    };
    if start == n {
        let r: String = crate::text::string_of(&v);
        proof {
            assert(v@.skip(start as int).len() == 0);
        }
        r
    } else {
        let mut name: Vec<char> = Vec::new();
        let mut i: usize = start;
        while i < n
            invariant
                start <= i <= n,
                n == v@.len(),
                name@ == v@.subrange(start as int, i as int),
            decreases n - i,
        {
            name.push(v[i]);
            i = i + 1;
            proof {
                assert(name@ =~= v@.subrange(start as int, i as int));
            }
        }
        proof {
            assert(name@ =~= v@.skip(start as int));
        }
        let sane: Vec<char> = sanitize_filename_chars(&name);
        let mut out: Vec<char> = Vec::new();
        let mut j: usize = 0;
        while j < start
            invariant
                j <= start,
                start <= v@.len(),
                out@ == v@.take(j as int),
            decreases start - j,
        {
            out.push(v[j]);
            j = j + 1;
            proof {
                assert(out@ =~= v@.take(j as int));
            }
        }
        let mut m: usize = 0;
        let ghost pre = out@;
        while m < sane.len()
            invariant
                m <= sane@.len(),
                out@ == pre + sane@.take(m as int),
            decreases sane@.len() - m,
        {
            out.push(sane[m]);
            m = m + 1;
            proof {
                assert(out@ =~= pre + sane@.take(m as int));
            }
        }
        proof {
            assert(sane@.take(sane@.len() as int) =~= sane@);
        }
        crate::text::string_of(&out)
    }
}

/// The index of the last `/` in `p`; meaningful only when one occurs.
pub open spec fn last_slash_index(p: Seq<char>) -> int
    decreases p.len(),
{
    if p.len() == 0 {
        -1
    } else if p.last() == '/' {
        p.len() - 1
    } else {
        last_slash_index(p.take(p.len() - 1))
    }
}

proof fn lemma_clean_stem_id(s: Seq<char>)
    requires
        forall|i: int| 0 <= i < s.len() ==> !is_forbidden(s[i]),
    ensures
        clean_stem(s) == s,
{
    assert(clean_stem(s) =~= s);
}

proof fn lemma_clean_ext_id(s: Seq<char>)
    requires
        forall|i: int| 0 <= i < s.len() ==> !is_ext_forbidden(s[i]),
    ensures
        clean_ext(s) == s,
{
    assert(clean_ext(s) =~= s);
}

/// Trimming takes a prefix, and what remains ends in neither a space nor
/// a period.
proof fn lemma_trim_props(s: Seq<char>)
    ensures
        trim_tail(s).len() <= s.len(),
        trim_tail(s) == s.take(trim_tail(s).len() as int),
        trim_tail(s).len() > 0 ==> trim_tail(s).last() != ' ' && trim_tail(s).last() != '.',
    decreases s.len(),
{
    if s.len() > 0 && (s.last() == ' ' || s.last() == '.') {
        let t = s.take(s.len() - 1);
        lemma_trim_props(t);
        assert(t.take(trim_tail(s).len() as int) =~= s.take(trim_tail(s).len() as int));
    } else {
        assert(trim_tail(s) =~= s.take(s.len() as int));
    }
}

/// No reserved name ends in the replacement character.
proof fn lemma_push_underscore_not_reserved(s: Seq<char>)
    ensures
        !is_reserved(s.push('_')),
{
    let p = s.push('_');
    assert(p.last() == '_');
    assert(!ci_eq('_', 'n'));
    assert(!ci_eq('_', 'x'));
    assert(!ci_eq('_', 'l'));
    assert(!is_pos_digit('_'));
}

/// What the sanitized stem always looks like: non-empty, free of forbidden
/// characters, not ending in a space or period, no reserved name, and
/// within the room `max` whenever there is any.
proof fn lemma_stem_props(st: Seq<char>, max: nat)
    ensures
        ({
            let o = sanitize_stem(st, max);
            &&& o.len() > 0
            &&& o.last() != ' ' && o.last() != '.'
            &&& !is_reserved(o)
            &&& forall|i: int| 0 <= i < o.len() ==> !is_forbidden(o[i])
            &&& max > 0 ==> o.len() <= max
            &&& max == 0 ==> o == seq!['_']
        }),
{
    let c = clean_stem(st);
    assert(forall|i: int| 0 <= i < c.len() ==> !is_forbidden(c[i]));
    let t = trim_tail(c);
    lemma_trim_props(c);
    assert(forall|i: int| 0 <= i < t.len() ==> !is_forbidden(#[trigger] t[i]));
    let f = fix_empty(t);
    assert(f.len() > 0);
    assert(!is_forbidden('_'));
    assert(forall|i: int| 0 <= i < f.len() ==> !is_forbidden(#[trigger] f[i]));
    assert(f.last() != ' ' && f.last() != '.');
    let r = fix_reserved(f);
    if is_reserved(f) {
        lemma_push_underscore_not_reserved(f);
    }
    assert(!is_reserved(r));
    assert(r.len() > 0);
    assert(r.last() != ' ' && r.last() != '.');
    assert(forall|i: int| 0 <= i < r.len() ==> !is_forbidden(#[trigger] r[i]));
    let o = sanitize_stem(st, max);
    if r.len() <= max {
        assert(o == r);
    } else {
        let rt = r.take(max as int);
        assert(forall|i: int| 0 <= i < rt.len() ==> !is_forbidden(#[trigger] rt[i]));
        let t2 = fix_empty(trim_tail(rt));
        lemma_trim_props(rt);
        assert(forall|i: int|
            0 <= i < trim_tail(rt).len() ==> !is_forbidden(#[trigger] trim_tail(rt)[i]));
        assert(t2.len() > 0);
        assert(t2.last() != ' ' && t2.last() != '.');
        assert(forall|i: int| 0 <= i < t2.len() ==> !is_forbidden(#[trigger] t2[i]));
        if max == 0 {
            assert(trim_tail(rt) =~= Seq::<char>::empty());
            assert(t2 =~= seq!['_']);
            assert(!is_reserved(t2));
            assert(o == t2);
        } else {
            assert(t2.len() <= if trim_tail(rt).len() == 0 {
                1nat
            } else {
                max
            });
            assert(t2.len() <= max);
            if is_reserved(t2) {
                if t2.len() < max {
                    assert(o == t2.push('_'));
                    lemma_push_underscore_not_reserved(t2);
                    assert(o.last() == '_');
                } else {
                    assert(o == t2.take(t2.len() - 1).push('_'));
                    lemma_push_underscore_not_reserved(t2.take(t2.len() - 1));
                    assert(o.last() == '_');
                    assert(forall|i: int|
                        0 <= i < t2.take(t2.len() - 1).len() ==> !is_forbidden(
                            #[trigger] t2.take(t2.len() - 1)[i],
                        ));
                }
            } else {
                assert(o == t2);
            }
        }
    }
}

/// Sanitizing an already sanitized stem changes nothing.
proof fn lemma_stem_fixpoint(st: Seq<char>, max: nat)
    ensures
        sanitize_stem(sanitize_stem(st, max), max) == sanitize_stem(st, max),
{
    let o = sanitize_stem(st, max);
    lemma_stem_props(st, max);
    lemma_clean_stem_id(o);
    assert(trim_tail(o) == o);
    assert(fix_empty(o) == o);
    assert(fix_reserved(o) == o);
    if o.len() <= max {
        assert(truncate_stem(o, max) == o);
    } else {
        assert(max == 0);
        assert(o == seq!['_']);
        let t2 = fix_empty(trim_tail(o.take(0)));
        assert(trim_tail(o.take(0)) =~= Seq::<char>::empty());
        assert(t2 =~= seq!['_']);
        assert(!is_reserved(t2));
        assert(truncate_stem(o, max) == t2);
    }
}

/// A name whose extension is non-empty is its stem, a period and its
/// extension, reassembled.
proof fn lemma_recompose(s: Seq<char>)
    requires
        ext_of(s).len() > 0,
    ensures
        s == stem_of(s) + seq!['.'] + ext_of(s),
    decreases s.len(),
{
    assert(contains_char(s, '.'));
    assert(s.len() > 0);
    assert(s.last() != '.');
    let t = s.take(s.len() - 1);
    assert(contains_char(t, '.')) by {
        let i = choose|i: int| 0 <= i < s.len() && s[i] == '.';
        assert(i < s.len() - 1);
        assert(t[i] == '.');
    }
    if ext_of(t).len() > 0 {
        lemma_recompose(t);
        assert(s =~= t + seq![s.last()]);
        assert(s =~= (stem_of(t) + seq!['.'] + ext_of(t)) + seq![s.last()]);
        assert(ext_of(s) == ext_of(t).push(s.last()));
        assert(ext_of(t).push(s.last()) =~= ext_of(t) + seq![s.last()]);
        assert(stem_of(s) == stem_of(t));
        assert(s =~= stem_of(s) + seq!['.'] + ext_of(s));
    } else {
        assert(t.len() > 0) by {
            let i = choose|i: int| 0 <= i < t.len() && t[i] == '.';
        }
        assert(t.last() == '.') by {
            if t.last() != '.' {
                assert(ext_of(t) == ext_of(t.take(t.len() - 1)).push(t.last()));
            }
        }
        assert(stem_of(s) == stem_of(t));
        assert(stem_of(t) == t.take(t.len() - 1));
        assert(ext_of(s) == ext_of(t).push(s.last()));
        assert(ext_of(s) =~= seq![s.last()]);
        assert(s =~= t + seq![s.last()]);
        assert(t =~= t.take(t.len() - 1) + seq!['.']);
        assert(s =~= stem_of(s) + seq!['.'] + ext_of(s));
    }
}

/// Whether resanitizing `y` finds, at its own split of `y`, pieces the
/// sanitizer leaves alone: a non-empty extension free of characters an
/// extension may not hold, and a stem that is non-empty, untrimmed, no
/// reserved name, and within the room the extension leaves.  On a
/// sanitized name whose extension came out empty, this is exactly what a
/// second pass checks.
pub open spec fn resplit_stable(y: Seq<char>) -> bool {
    let s1 = stem_of(y);
    let s2 = ext_of(y);
    &&& s2.len() > 0
    &&& clean_ext(s2) == s2
    &&& trim_tail(s1) == s1
    &&& s1.len() > 0
    &&& !is_reserved(s1)
    &&& s1.len() <= max_stem_len(s2.len())
}

/// Sanitization is idempotent.  The names left out are exactly those the
/// algorithm itself resanitizes differently: the cleaned extension came
/// out empty, the sanitized stem still holds a period, and the second
/// pass's own split of that stem finds something to fix.
pub proof fn lemma_sanitize_idempotent(s: Seq<char>)
    requires
        ext_of(s).len() > 0 || !contains_char(sanitize_name(s), '.') || resplit_stable(
            sanitize_name(s),
        ),
    ensures
        sanitize_name(sanitize_name(s)) == sanitize_name(s),
{
    let ce = clean_ext(ext_of(s));
    let max = max_stem_len(ce.len());
    let fs = sanitize_stem(stem_of(s), max);
    let y = sanitize_name(s);
    lemma_stem_props(stem_of(s), max);
    assert(forall|i: int| 0 <= i < ce.len() ==> !is_ext_forbidden(#[trigger] ce[i]));
    if ce.len() > 0 {
        let p = fs.len() as int;
        assert(y == fs + seq!['.'] + ce);
        assert(y[p] == '.');
        assert(forall|j: int| p < j < y.len() ==> y[j] == ce[j - p - 1]);
        assert(forall|j: int| p < j < y.len() ==> y[j] != '.');
        lemma_split_at_last_dot(y, p);
        assert(stem_of(y) =~= fs);
        assert(ext_of(y) =~= ce);
        lemma_clean_ext_id(ce);
        lemma_stem_fixpoint(stem_of(s), max);
        assert(sanitize_name(y) == fs + seq!['.'] + ce);
    } else if !contains_char(y, '.') {
        assert(y == fs);
        lemma_split_no_dot(y);
        assert(clean_ext(Seq::<char>::empty()) =~= Seq::<char>::empty());
        lemma_stem_fixpoint(stem_of(s), max);
        assert(sanitize_name(y) == sanitize_stem(fs, max));
    } else {
        assert(y == fs);
        let s1 = stem_of(y);
        let s2 = ext_of(y);
        lemma_recompose(y);
        assert(forall|j: int| 0 <= j < s1.len() ==> s1[j] == y[j]);
        lemma_clean_stem_id(s1);
        let max2 = max_stem_len(clean_ext(s2).len());
        assert(sanitize_stem(s1, max2) == s1) by {
            assert(clean_stem(s1) == s1);
            assert(trim_tail(s1) == s1);
            assert(fix_empty(s1) == s1);
            assert(fix_reserved(s1) == s1);
            assert(s1.len() <= max2);
            assert(truncate_stem(s1, max2) == s1);
        }
        assert(sanitize_name(y) == s1 + seq!['.'] + clean_ext(s2));
        assert(sanitize_name(y) == y);
    }
}

/// A sanitized name holds no forbidden character.
pub proof fn lemma_sanitize_no_forbidden(s: Seq<char>)
    ensures
        forall|i: int| 0 <= i < sanitize_name(s).len() ==> !is_forbidden(sanitize_name(s)[i]),
{
    let ce = clean_ext(ext_of(s));
    let max = max_stem_len(ce.len());
    let fs = sanitize_stem(stem_of(s), max);
    lemma_stem_props(stem_of(s), max);
    assert(forall|i: int| 0 <= i < ce.len() ==> !is_ext_forbidden(#[trigger] ce[i]));
    assert(!is_forbidden('.'));
    if ce.len() > 0 {
        let y = fs + seq!['.'] + ce;
        assert(forall|i: int|
            0 <= i < y.len() ==> y[i] == if i < fs.len() {
                fs[i]
            } else if i == fs.len() {
                '.'
            } else {
                ce[i - fs.len() - 1]
            });
    }
}

/// A sanitized name stays within the maximum filename length, provided its
/// extension leaves any room for a stem at all (an extension longer than
/// 253 characters cannot fit beside a non-empty stem and a period).
pub proof fn lemma_sanitize_len(s: Seq<char>)
    requires
        ext_of(s).len() == 0 || ext_of(s).len() <= 253,
    ensures
        sanitize_name(s).len() <= 255,
{
    let ce = clean_ext(ext_of(s));
    let max = max_stem_len(ce.len());
    lemma_stem_props(stem_of(s), max);
}

/// The stem of a sanitized name never matches a reserved device name,
/// under the same proviso as idempotence.
pub proof fn lemma_sanitize_stem_not_reserved(s: Seq<char>)
    requires
        ext_of(s).len() > 0 || !contains_char(sanitize_name(s), '.') || resplit_stable(
            sanitize_name(s),
        ),
    ensures
        !is_reserved(stem_of(sanitize_name(s))),
{
    let ce = clean_ext(ext_of(s));
    let max = max_stem_len(ce.len());
    let fs = sanitize_stem(stem_of(s), max);
    let y = sanitize_name(s);
    lemma_stem_props(stem_of(s), max);
    assert(forall|i: int| 0 <= i < ce.len() ==> !is_ext_forbidden(#[trigger] ce[i]));
    if ce.len() > 0 {
        let p = fs.len() as int;
        assert(y == fs + seq!['.'] + ce);
        assert(y[p] == '.');
        assert(forall|j: int| p < j < y.len() ==> y[j] == ce[j - p - 1]);
        assert(forall|j: int| p < j < y.len() ==> y[j] != '.');
        lemma_split_at_last_dot(y, p);
        assert(stem_of(y) =~= fs);
    } else if !contains_char(y, '.') {
        lemma_split_no_dot(y);
    }
}

/// A `/` at `q` with none after it is the last slash.
pub proof fn lemma_last_slash(p: Seq<char>, q: int)
    requires
        0 <= q < p.len(),
        p[q] == '/',
        forall|j: int| q < j < p.len() ==> p[j] != '/',
    ensures
        last_slash_index(p) == q,
        contains_char(p, '/'),
    decreases p.len(),
{
    if q == p.len() - 1 {
    } else {
        let t = p.take(p.len() - 1);
        assert(t[q] == '/');
        lemma_last_slash(t, q);
    }
}

} // verus!
