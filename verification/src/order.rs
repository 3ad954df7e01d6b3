//! Ordering of directory entries.
//!
//! Files destined for copy are ordered naturally: a name opening with a run
//! of ASCII digits sorts before one that does not, two numbered names
//! compare by the numeric value of their runs first and fall back to the
//! full lexicographic comparison on ties, and two unnumbered names compare
//! lexicographically.  Subdirectories, and files listed for analysis only,
//! are ordered plainly lexicographically.

use vstd::prelude::*;

verus! {

use crate::text::lex_le;

/// Whether `c` is an ASCII digit.
pub open spec fn is_digit(c: char) -> bool {
    48 <= (c as u32) <= 57
}

/// The value of an ASCII digit character.
pub open spec fn digit_val(c: char) -> nat {
    ((c as u32) - 48) as nat
}

/// The length of the longest run of ASCII digits opening `s`.
pub open spec fn digits_len(s: Seq<char>) -> nat
    decreases s.len(),
{
    if s.len() > 0 && is_digit(s[0]) {
        1 + digits_len(s.skip(1))
    } else {
        0
    }
}

/// Ten to the `n`.
pub open spec fn pow10(n: nat) -> nat
    decreases n,
{
    if n == 0 {
        1
    } else {
        10 * pow10((n - 1) as nat)
    }
}

/// The numeric value of a sequence of ASCII digits, read most significant
/// digit first; the empty sequence has value zero.
pub open spec fn num_val(d: Seq<char>) -> nat
    decreases d.len(),
{
    if d.len() == 0 {
        0
    } else {
        digit_val(d[0]) * pow10((d.len() - 1) as nat) + num_val(d.skip(1))
    }
}

/// The numeric value of the digit run opening `s`.
pub open spec fn leading_num(s: Seq<char>) -> nat {
    num_val(s.take(digits_len(s) as int))
}

/// The natural "less than or equal" on filenames used for files destined
/// for copy: numbered before unnumbered, numbered against numbered by
/// value and then by full lexicographic comparison, unnumbered against
/// unnumbered lexicographically.
pub open spec fn natural_le(a: Seq<char>, b: Seq<char>) -> bool {
    let da = digits_len(a);
    let db = digits_len(b);
    if da > 0 && db == 0 {
        true
    } else if da == 0 && db > 0 {
        false
    } else if da == 0 && db == 0 {
        lex_le(a, b)
    } else {
        leading_num(a) < leading_num(b) || (leading_num(a) == leading_num(b) && lex_le(a, b))
    }
}

/// The order a listing uses: natural for files being copied, plain
/// lexicographic otherwise.
pub open spec fn name_le(natural: bool, a: Seq<char>, b: Seq<char>) -> bool {
    if natural {
        natural_le(a, b)
    } else {
        lex_le(a, b)
    }
}

/// `name_le` as a relation value, for `sorted_by` and `sort_by`.
pub open spec fn name_leq(natural: bool) -> spec_fn(Seq<char>, Seq<char>) -> bool {
    |a: Seq<char>, b: Seq<char>| name_le(natural, a, b)
}

proof fn lemma_pow10_pos(n: nat)
    ensures
        pow10(n) >= 1,
    decreases n,
{
    if n > 0 {
        lemma_pow10_pos((n - 1) as nat);
    }
}

proof fn lemma_pow10_mono(a: nat, b: nat)
    requires
        a <= b,
    ensures
        pow10(a) <= pow10(b),
    decreases b,
{
    if a < b {
        lemma_pow10_mono(a, (b - 1) as nat);
        lemma_pow10_pos((b - 1) as nat);
    }
}

/// A run of `l` digits has value below ten to the `l`.
proof fn lemma_num_val_upper(d: Seq<char>)
    requires
        forall|i: int| 0 <= i < d.len() ==> is_digit(#[trigger] d[i]),
    ensures
        num_val(d) < pow10(d.len()),
    decreases d.len(),
{
    if d.len() > 0 {
        let p = pow10((d.len() - 1) as nat);
        lemma_num_val_upper(d.skip(1));
        assert(digit_val(d[0]) <= 9);
        assert(digit_val(d[0]) * p <= 9 * p) by (nonlinear_arith)
            requires
                digit_val(d[0]) <= 9,
                p >= 0,
        ;
        assert(num_val(d) <= 9 * p + (p - 1));
    }
}

/// A run of digits with no leading zero has value at least ten to one
/// less than its length.
proof fn lemma_num_val_lower(d: Seq<char>)
    requires
        d.len() > 0,
        forall|i: int| 0 <= i < d.len() ==> is_digit(#[trigger] d[i]),
        d[0] != '0',
    ensures
        num_val(d) >= pow10((d.len() - 1) as nat),
{
    let p = pow10((d.len() - 1) as nat);
    assert((d[0] as u32) != 48) by {
        if (d[0] as u32) == 48 {
            vstd::utf8::char_u32_cast(d[0], 48u32);
            assert((48u32 as char) == '0');
        }
    }
    assert(digit_val(d[0]) >= 1);
    assert(digit_val(d[0]) * p >= 1 * p) by (nonlinear_arith)
        requires
            digit_val(d[0]) >= 1,
            p >= 0,
    ;
}

/// Leading zeros do not change a run's value.
proof fn lemma_strip_zeros(d: Seq<char>, z: int)
    requires
        0 <= z <= d.len(),
        forall|i: int| 0 <= i < z ==> d[i] == '0',
    ensures
        num_val(d) == num_val(d.skip(z)),
    decreases z,
{
    if z > 0 {
        assert(digit_val(d[0]) == 0);
        lemma_strip_zeros(d.skip(1), z - 1);
        assert(d.skip(1).skip(z - 1) =~= d.skip(z));
    } else {
        assert(d.skip(0) =~= d);
    }
}

/// Of two runs of digits without leading zeros, the shorter has the
/// smaller value.
proof fn lemma_shorter_run_smaller(d: Seq<char>, e: Seq<char>)
    requires
        forall|i: int| 0 <= i < d.len() ==> is_digit(#[trigger] d[i]),
        forall|i: int| 0 <= i < e.len() ==> is_digit(#[trigger] e[i]),
        e.len() > 0,
        e[0] != '0',
        d.len() < e.len(),
    ensures
        num_val(d) < num_val(e),
{
    lemma_num_val_upper(d);
    lemma_num_val_lower(e);
    lemma_pow10_mono(d.len(), (e.len() - 1) as nat);
}

/// Of two equally long runs of digits, the first differing digit decides
/// the comparison of their values.
proof fn lemma_first_diff(d: Seq<char>, e: Seq<char>, k: int)
    requires
        d.len() == e.len(),
        forall|i: int| 0 <= i < d.len() ==> is_digit(#[trigger] d[i]),
        forall|i: int| 0 <= i < e.len() ==> is_digit(#[trigger] e[i]),
        0 <= k < d.len(),
        forall|j: int| 0 <= j < k ==> d[j] == e[j],
        digit_val(d[k]) < digit_val(e[k]),
    ensures
        num_val(d) < num_val(e),
    decreases k,
{
    if k == 0 {
        let p = pow10((d.len() - 1) as nat);
        lemma_num_val_upper(d.skip(1));
        assert(num_val(d) < digit_val(d[0]) * p + p);
        assert(digit_val(d[0]) * p + p == (digit_val(d[0]) + 1) * p) by (nonlinear_arith);
        assert((digit_val(d[0]) + 1) * p <= digit_val(e[0]) * p) by (nonlinear_arith)
            requires
                digit_val(d[0]) + 1 <= digit_val(e[0]),
                p >= 0,
        ;
        assert(num_val(e) >= digit_val(e[0]) * p);
    } else {
        assert(d[0] == e[0]);
        lemma_first_diff(d.skip(1), e.skip(1), k - 1);
    }
}

/// Appending a digit multiplies the value by ten and adds the digit.
pub proof fn lemma_num_val_snoc(d: Seq<char>, c: char)
    ensures
        num_val(d.push(c)) == 10 * num_val(d) + digit_val(c),
    decreases d.len(),
{
    if d.len() == 0 {
        assert(d.push(c)[0] == c);
        assert(d.push(c).skip(1) =~= Seq::<char>::empty());
        assert(num_val(Seq::<char>::empty()) == 0);
        assert(pow10(0) == 1);
        assert(num_val(d.push(c)) == digit_val(c) * 1 + 0);
    } else {
        assert(d.push(c)[0] == d[0]);
        assert(d.push(c).skip(1) =~= d.skip(1).push(c));
        lemma_num_val_snoc(d.skip(1), c);
        let a = digit_val(d[0]);
        let p = pow10((d.len() - 1) as nat);
        assert(pow10(d.len()) == 10 * p);
        assert(num_val(d) == a * p + num_val(d.skip(1)));
        assert(num_val(d.push(c)) == a * pow10(d.len()) + num_val(d.skip(1).push(c)));
        assert(num_val(d.push(c)) == a * (10 * p) + 10 * num_val(d.skip(1)) + digit_val(c));
        assert(10 * (a * p) == a * (10 * p)) by (nonlinear_arith);
        assert(10 * num_val(d) == 10 * (a * p) + 10 * num_val(d.skip(1)));
    }
}

/// A digit run is worth at least any of its prefixes.
pub proof fn lemma_num_val_prefix_mono(d: Seq<char>, k: int)
    requires
        0 <= k <= d.len(),
    ensures
        num_val(d.take(k)) <= num_val(d),
    decreases d.len() - k,
{
    if k < d.len() {
        assert(d.take(k + 1) =~= d.take(k).push(d[k]));
        lemma_num_val_snoc(d.take(k), d[k]);
        lemma_num_val_prefix_mono(d, k + 1);
    } else {
        assert(d.take(k) =~= d);
    }
}

/// `natural_le`, like the lexicographic order, orders names totally.
pub proof fn lemma_name_le_total_ordering(natural: bool)
    ensures
        vstd::relations::total_ordering(name_leq(natural)),
{
    if !natural {
        crate::text::lemma_lex_le_total_ordering();
        assert(name_leq(natural) =~= (|a: Seq<char>, b: Seq<char>| lex_le(a, b)));
    } else {
        let leq = name_leq(natural);
        assert forall|a: Seq<char>, b: Seq<char>| #[trigger] leq(a, b) && leq(b, a) implies a
            == b by {
            if digits_len(a) == 0 && digits_len(b) == 0 {
                crate::text::lemma_lex_le_antisymmetric(a, b);
            } else if digits_len(a) > 0 && digits_len(b) > 0 {
                assert(leading_num(a) == leading_num(b));
                crate::text::lemma_lex_le_antisymmetric(a, b);
            }
        }
        assert forall|a: Seq<char>, b: Seq<char>, c: Seq<char>|
            #[trigger] leq(a, b) && #[trigger] leq(b, c) implies leq(a, c) by {
            if digits_len(a) == 0 && digits_len(b) == 0 && digits_len(c) == 0 {
                crate::text::lemma_lex_le_transitive(a, b, c);
            } else if digits_len(a) > 0 && digits_len(b) > 0 && digits_len(c) > 0 {
                if leading_num(a) == leading_num(c) {
                    assert(leading_num(a) == leading_num(b));
                    crate::text::lemma_lex_le_transitive(a, b, c);
                }
            }
        }
        assert forall|a: Seq<char>, b: Seq<char>| #[trigger] leq(a, b) || #[trigger] leq(
            b,
            a,
        ) by {
            crate::text::lemma_lex_le_total(a, b);
        }
    }
}

/// Every character of the opening digit run is a digit, and the run is no
/// longer than the name.
pub proof fn lemma_digits_len_facts(s: Seq<char>)
    ensures
        digits_len(s) <= s.len(),
        forall|i: int| 0 <= i < digits_len(s) ==> is_digit(#[trigger] s[i]),
    decreases s.len(),
{
    if s.len() > 0 && is_digit(s[0]) {
        lemma_digits_len_facts(s.skip(1));
        assert(forall|i: int| 1 <= i < digits_len(s) ==> s[i] == s.skip(1)[i - 1]);
    }
}

/// A run of `k` digits stopped by a non-digit (or the end) is the opening
/// digit run.
proof fn lemma_digits_len_at(s: Seq<char>, k: int)
    requires
        0 <= k <= s.len(),
        forall|j: int| 0 <= j < k ==> is_digit(#[trigger] s[j]),
        k < s.len() ==> !is_digit(s[k as int]),
    ensures
        digits_len(s) == k,
    decreases k,
{
    if k == 0 {
    } else {
        assert(forall|j: int| 0 <= j < k - 1 ==> s.skip(1)[j] == s[j + 1]);
        lemma_digits_len_at(s.skip(1), k - 1);
    }
}

fn is_digit_char(c: char) -> (r: bool)
    ensures
        r == is_digit(c),
{
    let u: u32 = c as u32;
    48 <= u && u <= 57
}

/// The length of the digit run opening `v`.
pub fn digits_prefix_len(v: &Vec<char>) -> (r: usize)
    ensures
        r == digits_len(v@),
{
    let n: usize = v.len();
    let mut i: usize = 0;
    while i < n && is_digit_char(v[i])
        invariant
            i <= n,
            n == v@.len(),
            forall|j: int| 0 <= j < i ==> is_digit(#[trigger] v@[j]),
        decreases n - i,
    {
        i = i + 1;
    }
    proof {
        lemma_digits_len_at(v@, i as int);
    }
    i
}

/// Whether the name in `a` comes no later than the name in `b` under the
/// order selected by `natural`.
pub fn name_le_chars(natural: bool, a: &Vec<char>, b: &Vec<char>) -> (r: bool)
    ensures
        r == name_le(natural, a@, b@),
{
    if !natural {
        let c: i8 = crate::text::lex_cmp_chars(a, 0, b, 0);
        proof {
            assert(a@.skip(0) =~= a@);
            assert(b@.skip(0) =~= b@);
        }
        c <= 0
    } else {
        let da: usize = digits_prefix_len(a);
        let db: usize = digits_prefix_len(b);
        proof {
            lemma_digits_len_facts(a@);
            lemma_digits_len_facts(b@);
        }
        if da > 0 && db == 0 {
            true
        } else if da == 0 && db > 0 {
            false
        } else if da == 0 && db == 0 {
            let c: i8 = crate::text::lex_cmp_chars(a, 0, b, 0);
            proof {
                assert(a@.skip(0) =~= a@);
                assert(b@.skip(0) =~= b@);
            }
            c <= 0
        } else {
            let ghost pa = a@.take(da as int);
            let ghost pb = b@.take(db as int);
            proof {
                assert(forall|i: int| 0 <= i < pa.len() ==> pa[i] == a@[i]);
                assert(forall|i: int| 0 <= i < pb.len() ==> pb[i] == b@[i]);
            }
            let mut za: usize = 0;
            while za < da && a[za] == '0'
                invariant
                    za <= da,
                    da <= a@.len(),
                    forall|j: int| 0 <= j < za ==> a@[j] == '0',
                decreases da - za,
            {
                za = za + 1;
            }
            let mut zb: usize = 0;
            while zb < db && b[zb] == '0'
                invariant
                    zb <= db,
                    db <= b@.len(),
                    forall|j: int| 0 <= j < zb ==> b@[j] == '0',
                decreases db - zb,
            {
                zb = zb + 1;
            }
            let ghost ea = pa.skip(za as int);
            let ghost eb = pb.skip(zb as int);
            proof {
                lemma_strip_zeros(pa, za as int);
                lemma_strip_zeros(pb, zb as int);
                assert(forall|i: int| 0 <= i < ea.len() ==> ea[i] == a@[za + i]);
                assert(forall|i: int| 0 <= i < eb.len() ==> eb[i] == b@[zb + i]);
            }
            let la: usize = da - za;
            let lb: usize = db - zb;
            if la < lb {
                proof {
                    lemma_shorter_run_smaller(ea, eb);
                }
                true
            } else if la > lb {
                proof {
                    lemma_shorter_run_smaller(eb, ea);
                }
                false
            } else {
                let mut k: usize = 0;
                while k < la && (a[za + k] as u32) == (b[zb + k] as u32)
                    invariant
                        k <= la,
                        la == lb,
                        za + la == da <= a@.len(),
                        zb + lb == db <= b@.len(),
                        forall|j: int| 0 <= j < k ==> #[trigger] a@[za + j] == b@[zb + j],
                    decreases la - k,
                {
                    proof {
                        crate::text::lemma_char_eq(a@[za + k], b@[zb + k]);
                    }
                    k = k + 1;
                }
                if k < la {
                    let ca: u32 = a[za + k] as u32;
                    let cb: u32 = b[zb + k] as u32;
                    proof {
                        assert(ea[k as int] == a@[za + k]);
                        assert(eb[k as int] == b@[zb + k]);
                        assert(forall|j: int| 0 <= j < k ==> ea[j] == eb[j]);
                        if ca < cb {
                            lemma_first_diff(ea, eb, k as int);
                        } else {
                            lemma_first_diff(eb, ea, k as int);
                        }
                    }
                    ca < cb
                } else {
                    proof {
                        assert(ea =~= eb);
                    }
                    let c: i8 = crate::text::lex_cmp_chars(a, 0, b, 0);
                    proof {
                        assert(a@.skip(0) =~= a@);
                        assert(b@.skip(0) =~= b@);
                    }
                    c <= 0
                }
            }
        }
    }
}

/// `name_le_chars` on two strings.
pub fn name_le_str(natural: bool, a: &str, b: &str) -> (r: bool)
    ensures
        r == name_le(natural, a@, b@),
{
    let va: Vec<char> = crate::text::chars_of(a);
    let vb: Vec<char> = crate::text::chars_of(b);
    name_le_chars(natural, &va, &vb)
}

/// The views of a sequence of strings.
pub open spec fn views(s: Seq<String>) -> Seq<Seq<char>> {
    s.map_values(|x: String| x@)
}

/// One of two names always comes no later than the other.
proof fn lemma_name_le_connected(natural: bool, a: Seq<char>, b: Seq<char>)
    ensures
        name_le(natural, a, b) || name_le(natural, b, a),
{
    crate::text::lemma_lex_le_total(a, b);
}

/// `name_le` is transitive.
proof fn lemma_name_le_trans(natural: bool, a: Seq<char>, b: Seq<char>, c: Seq<char>)
    requires
        name_le(natural, a, b),
        name_le(natural, b, c),
    ensures
        name_le(natural, a, c),
{
    if !natural || (digits_len(a) == 0 && digits_len(b) == 0 && digits_len(c) == 0) {
        crate::text::lemma_lex_le_transitive(a, b, c);
    } else if digits_len(a) > 0 && digits_len(b) > 0 && digits_len(c) > 0 {
        if leading_num(a) == leading_num(c) {
            assert(leading_num(a) == leading_num(b));
            crate::text::lemma_lex_le_transitive(a, b, c);
        }
    }
}

/// Sort names, naturally for files destined for copy, lexicographically
/// otherwise.  The result lists exactly the given names, ordered by
/// `name_le`.
pub fn sort_names(v: Vec<String>, natural: bool) -> (r: Vec<String>)
    ensures
        vstd::relations::sorted_by(views(r@), name_leq(natural)),
        views(r@).to_multiset() == views(v@).to_multiset(),
        views(r@) == views(v@).sort_by(name_leq(natural)),
{
    broadcast use vstd::seq_lib::group_to_multiset_ensures;

    let mut work: Vec<String> = v;
    let mut out: Vec<String> = Vec::new();
    while work.len() > 0
        invariant
            forall|i: int, j: int|
                0 <= i < j < out@.len() ==> name_le(
                    natural,
                    #[trigger] views(out@)[i],
                    #[trigger] views(out@)[j],
                ),
            forall|i: int, j: int|
                0 <= i < out@.len() && 0 <= j < work@.len() ==> name_le(
                    natural,
                    #[trigger] views(out@)[i],
                    #[trigger] views(work@)[j],
                ),
            views(out@).to_multiset().add(views(work@).to_multiset()) == views(v@).to_multiset(),
        decreases work@.len(),
    {
        proof {
            lemma_name_le_connected(natural, views(work@)[0], views(work@)[0]);
        }
        let mut m: usize = 0;
        let mut i: usize = 1;
        while i < work.len()
            invariant
                work@.len() > 0,
                m < work@.len(),
                i <= work@.len(),
                forall|j: int|
                    0 <= j < i ==> name_le(
                        natural,
                        views(work@)[m as int],
                        #[trigger] views(work@)[j],
                    ),
            decreases work@.len() - i,
        {
            let le: bool = name_le_str(natural, work[i].as_str(), work[m].as_str());
            proof {
                assert(views(work@)[i as int] == work@[i as int]@);
                assert(views(work@)[m as int] == work@[m as int]@);
            }
            if le {
                proof {
                    assert forall|j: int| 0 <= j < i + 1 implies name_le(
                        natural,
                        views(work@)[i as int],
                        #[trigger] views(work@)[j],
                    ) by {
                        if j < i {
                            lemma_name_le_trans(
                                natural,
                                views(work@)[i as int],
                                views(work@)[m as int],
                                views(work@)[j],
                            );
                        } else if j == i {
                            lemma_name_le_connected(
                                natural,
                                views(work@)[i as int],
                                views(work@)[i as int],
                            );
                        }
                    }
                }
                m = i;
            } else {
                proof {
                    lemma_name_le_connected(
                        natural,
                        views(work@)[i as int],
                        views(work@)[m as int],
                    );
                }
            }
            i = i + 1;
        }
        let ghost old_out = out@;
        let ghost old_work = work@;
        let x: String = work.remove(m);
        out.push(x);
        proof {
            assert(views(old_work)[m as int] == x@);
            assert(views(out@) =~= views(old_out).push(x@));
            assert(views(work@) =~= views(old_work).remove(m as int));
            assert forall|i: int, j: int| 0 <= i < j < out@.len() implies name_le(
                natural,
                #[trigger] views(out@)[i],
                #[trigger] views(out@)[j],
            ) by {
                if j < old_out.len() {
                    assert(views(out@)[i] == views(old_out)[i]);
                    assert(views(out@)[j] == views(old_out)[j]);
                } else {
                    assert(views(out@)[j] == x@);
                    assert(views(out@)[i] == views(old_out)[i]);
                    assert(name_le(natural, views(old_out)[i], views(old_work)[m as int]));
                }
            }
            assert forall|i: int, j: int|
                0 <= i < out@.len() && 0 <= j < work@.len() implies name_le(
                natural,
                #[trigger] views(out@)[i],
                #[trigger] views(work@)[j],
            ) by {
                let wv = views(work@)[j];
                if j < m {
                    assert(wv == views(old_work)[j]);
                } else {
                    assert(wv == views(old_work)[j + 1]);
                }
                if i < old_out.len() {
                    assert(views(out@)[i] == views(old_out)[i]);
                } else {
                    assert(views(out@)[i] == x@);
                }
            }
            let vw = views(old_work);
            vw.to_multiset_ensures();
            views(old_out).to_multiset_ensures();
            assert(vw.remove(m as int).to_multiset() =~= vw.to_multiset().remove(vw[m as int]));
            assert(views(out@).to_multiset() =~= views(old_out).to_multiset().insert(x@));
            assert(vw.to_multiset().count(x@) >= 1) by {
                assert(vw[m as int] == x@);
                assert(vw.contains(x@));
            }
            assert(views(out@).to_multiset().add(views(work@).to_multiset()) =~= views(
                v@,
            ).to_multiset());
        }
    }
    proof {
        vstd::multiset::lemma_multiset_empty_len(views(work@).to_multiset());
        assert(views(work@).to_multiset().len() == 0);
        assert(views(out@).to_multiset() =~= views(v@).to_multiset());
        assert forall|i: int, j: int| 0 <= i < j < views(out@).len() implies name_leq(natural)(
            views(out@)[i],
            views(out@)[j],
        ) by {
            assert(name_le(natural, views(out@)[i], views(out@)[j]));
        }
        lemma_name_le_total_ordering(natural);
        views(v@).lemma_sort_by_ensures(name_leq(natural));
        vstd::seq_lib::lemma_sorted_unique(
            views(out@),
            views(v@).sort_by(name_leq(natural)),
            name_leq(natural),
        );
    }
    out
}

/// Between two names that both open with a digit run, the smaller numeric
/// value comes strictly first, whatever the lexicographic comparison of
/// the names would say.
pub proof fn lemma_numeric_orders_copies(a: Seq<char>, b: Seq<char>)
    requires
        digits_len(a) > 0,
        digits_len(b) > 0,
        leading_num(a) < leading_num(b),
    ensures
        natural_le(a, b),
        !natural_le(b, a),
{
}

} // verus!
