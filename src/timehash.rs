use vstd::prelude::*;
use vstd::string::StrSliceExecFns;
use vstd::string::StringExecFns;
use crate::alphabet::{
    TimehashError, is_symbol, ord_of, sym_of, lemma_symbol_ordinal, lemma_ordinal_symbol,
    get_char, get_ordinal, get_neighbor_chars, symbol_str,
};

verus! {

pub open spec fn pow8(n: nat) -> nat
    decreases n,
{
    if n == 0 {
        1
    } else {
        8 * pow8((n - 1) as nat)
    }
}

/// Every character of `s` is a symbol of the alphabet.
pub open spec fn valid_hash(s: Seq<char>) -> bool {
    forall|i: int| 0 <= i < s.len() ==> is_symbol(#[trigger] s[i])
}

/// The time window that a timehash names, counted from the start of the range:
/// the hash read as a base-8 number, first character most significant.
pub open spec fn value(s: Seq<char>) -> nat
    decreases s.len(),
{
    if s.len() == 0 {
        0
    } else {
        value(s.drop_last()) * 8 + ord_of(s.last())
    }
}

/// The `n`-character timehash of window `v` (taken modulo `8^n`).
pub open spec fn digits(v: nat, n: nat) -> Seq<char>
    decreases n,
{
    if n == 0 {
        seq![]
    } else {
        digits(v / 8, (n - 1) as nat).push(sym_of(v % 8))
    }
}

/// `k` copies of `c`.
pub open spec fn fill(c: char, k: nat) -> Seq<char> {
    Seq::new(k, |_i: int| c)
}

/// The preceding window of the same length; empty when `s` names the first one.
pub open spec fn before_spec(s: Seq<char>) -> Seq<char> {
    if value(s) == 0 {
        seq![]
    } else {
        digits((value(s) - 1) as nat, s.len())
    }
}

/// The succeeding window of the same length; empty when `s` names the last one.
pub open spec fn after_spec(s: Seq<char>) -> Seq<char> {
    if value(s) + 1 == pow8(s.len()) {
        seq![]
    } else {
        digits(value(s) + 1, s.len())
    }
}

/// `e` names the leftmost character of `s` outside the alphabet.
pub open spec fn reports_first_invalid(s: Seq<char>, e: TimehashError) -> bool {
    exists|j: int|
        0 <= j < s.len() && !is_symbol(#[trigger] s[j]) && (forall|k: int|
            0 <= k < j ==> is_symbol(#[trigger] s[k])) && e == TimehashError::InvalidCharacter(s[j])
}

pub proof fn lemma_pow8_positive(n: nat)
    ensures
        pow8(n) >= 1,
    decreases n,
{
    if n > 0 {
        lemma_pow8_positive((n - 1) as nat);
    }
}

pub proof fn lemma_value_concat(a: Seq<char>, b: Seq<char>)
    ensures
        value(a + b) == value(a) * pow8(b.len()) + value(b),
    decreases b.len(),
{
    if b.len() == 0 {
        assert(a + b =~= a);
        assert(pow8(0) == 1);
        assert(value(a) * 1 == value(a));
    } else {
        let m = b.len();
        assert((a + b).drop_last() =~= a + b.drop_last());
        assert((a + b).last() == b.last());
        lemma_value_concat(a, b.drop_last());
        let x = value(a);
        let p = pow8((m - 1) as nat);
        let y = value(b.drop_last());
        assert((x * p + y) * 8 + ord_of(b.last()) == x * (8 * p) + (y * 8 + ord_of(b.last())))
            by (nonlinear_arith);
        assert(value(a + b) == value((a + b).drop_last()) * 8 + ord_of((a + b).last()));
        assert(value(b) == y * 8 + ord_of(b.last()));
        assert(pow8(m) == 8 * p);
    }
}

pub proof fn lemma_value_fill(c: char, k: nat)
    ensures
        c == '0' ==> value(fill(c, k)) == 0,
        c == 'f' ==> value(fill(c, k)) + 1 == pow8(k),
    decreases k,
{
    if k > 0 {
        assert(fill(c, k).drop_last() =~= fill(c, (k - 1) as nat));
        lemma_value_fill(c, (k - 1) as nat);
    }
}

pub proof fn lemma_value_bound(s: Seq<char>)
    requires
        valid_hash(s),
    ensures
        value(s) < pow8(s.len()),
    decreases s.len(),
{
    if s.len() > 0 {
        let d = s.drop_last();
        lemma_value_bound(d);
        assert(is_symbol(s[s.len() - 1]));
        let x = value(d);
        let p = pow8(d.len());
        let o = ord_of(s.last());
        assert(x * 8 + o < 8 * p) by (nonlinear_arith)
            requires
                x < p,
                o < 8,
        ;
    }
}

pub proof fn lemma_digits_shape(v: nat, n: nat)
    ensures
        digits(v, n).len() == n,
        valid_hash(digits(v, n)),
    decreases n,
{
    if n > 0 {
        lemma_digits_shape(v / 8, (n - 1) as nat);
        lemma_ordinal_symbol(v % 8);
    }
}

/// Reading a valid hash as a number and writing it back gives the hash.
pub proof fn lemma_digits_of_value(s: Seq<char>)
    requires
        valid_hash(s),
    ensures
        digits(value(s), s.len()) == s,
    decreases s.len(),
{
    if s.len() > 0 {
        let d = s.drop_last();
        assert(is_symbol(s[s.len() - 1]));
        lemma_symbol_ordinal(s.last());
        lemma_digits_of_value(d);
        let x = value(d);
        let o = ord_of(s.last());
        assert((x * 8 + o) / 8 == x && (x * 8 + o) % 8 == o) by (nonlinear_arith)
            requires
                o < 8,
        ;
        assert(digits(value(s), s.len()) =~= s);
    }
}

/// Writing a window as a hash and reading it back gives the window.
pub proof fn lemma_value_of_digits(v: nat, n: nat)
    requires
        v < pow8(n),
    ensures
        value(digits(v, n)) == v,
    decreases n,
{
    if n > 0 {
        let p = pow8((n - 1) as nat);
        assert(v / 8 < p && (v / 8) * 8 + v % 8 == v) by (nonlinear_arith)
            requires
                v < 8 * p,
        ;
        lemma_value_of_digits(v / 8, (n - 1) as nat);
        lemma_ordinal_symbol(v % 8);
        assert(digits(v, n).drop_last() =~= digits(v / 8, (n - 1) as nat));
    }
}

/// Ring closure: for a valid hash that does not name the first window, the
/// preceding window comes just before it, and the window after that
/// predecessor is the hash itself.
pub proof fn lemma_before_then_after(h: Seq<char>)
    requires
        valid_hash(h),
        value(h) != 0,
    ensures
        before_spec(h).len() == h.len(),
        valid_hash(before_spec(h)),
        value(before_spec(h)) + 1 == value(h),
        after_spec(before_spec(h)) == h,
{
    let n = h.len();
    lemma_value_bound(h);
    let v = (value(h) - 1) as nat;
    lemma_digits_shape(v, n);
    lemma_value_of_digits(v, n);
    lemma_digits_of_value(h);
}

/// The mirror law: for a valid hash that does not name the last window, the
/// succeeding window comes just after it, and the window before that successor
/// is the hash itself.
pub proof fn lemma_after_then_before(h: Seq<char>)
    requires
        valid_hash(h),
        value(h) + 1 != pow8(h.len()),
    ensures
        after_spec(h).len() == h.len(),
        valid_hash(after_spec(h)),
        value(after_spec(h)) == value(h) + 1,
        before_spec(after_spec(h)) == h,
{
    let n = h.len();
    lemma_value_bound(h);
    let v = value(h) + 1;
    lemma_digits_shape(v, n);
    lemma_value_of_digits(v, n);
    lemma_digits_of_value(h);
}

/// The characters of `h`, or the first one outside the alphabet.
fn symbols_of(h: &str) -> (r: Result<Vec<char>, TimehashError>)
    ensures
        r is Ok <==> valid_hash(h@),
        r matches Ok(v) ==> v@ == h@,
        r matches Err(e) ==> reports_first_invalid(h@, e),
{
    let n = h.unicode_len();
    let mut v: Vec<char> = Vec::new();
    let mut i: usize = 0;
    while i < n
        invariant
            n == h@.len(),
            i <= n,
            v@ == h@.subrange(0, i as int),
            valid_hash(v@),
        decreases n - i,
    {
        let c = h.get_char(i);
        match get_ordinal(c) {
            Ok(_) => {},
            Err(e) => {
                assert(forall|k: int| 0 <= k < i ==> v@[k] == h@[k]);
                assert(reports_first_invalid(h@, e)) by {
                    assert(!is_symbol(h@[i as int]));
                }
                return Err(e);
            },
        }
        v.push(c);
        i += 1;
    }
    assert(v@ =~= h@);
    Ok(v)
}

/// The ordinals of the characters of a hash, each a 3-bit pattern.
pub open spec fn ordinals_spec(s: Seq<char>) -> Seq<usize> {
    s.map_values(|c: char| ord_of(c) as usize)
}

/// The hash whose characters have the given ordinals.
pub open spec fn symbols_spec(v: Seq<usize>) -> Seq<char> {
    v.map_values(|x: usize| sym_of(x as nat))
}

/// `e` names the leftmost ordinal of `v` that is 8 or more.
pub open spec fn reports_first_out_of_range(v: Seq<usize>, e: TimehashError) -> bool {
    exists|j: int|
        0 <= j < v.len() && #[trigger] v[j] >= 8 && (forall|k: int| 0 <= k < j ==> #[trigger] v[k]
            < 8) && e == TimehashError::InvalidOrdinal(v[j])
}

/// Writing ordinals below 8 as symbols gives a valid hash of the same length,
/// and reading that hash back gives the ordinals.
pub proof fn lemma_ordinals_round_trip(v: Seq<usize>)
    requires
        forall|i: int| 0 <= i < v.len() ==> #[trigger] v[i] < 8,
    ensures
        symbols_spec(v).len() == v.len(),
        valid_hash(symbols_spec(v)),
        ordinals_spec(symbols_spec(v)) == v,
{
    assert forall|i: int| 0 <= i < v.len() implies is_symbol(#[trigger] symbols_spec(v)[i]) && ord_of(
        symbols_spec(v)[i],
    ) == v[i] by {
        lemma_ordinal_symbol(v[i] as nat);
    }
    assert(ordinals_spec(symbols_spec(v)) =~= v);
}

/// The ordinal of each character of `timehash`, in order.
pub fn ordinals(timehash: &str) -> (r: Result<Vec<usize>, TimehashError>)
    ensures
        r is Ok <==> valid_hash(timehash@),
        r matches Ok(v) ==> v@ == ordinals_spec(timehash@),
        r matches Err(e) ==> reports_first_invalid(timehash@, e),
{
    let chars = match symbols_of(timehash) {
        Ok(v) => v,
        Err(e) => return Err(e),
    };
    let mut out: Vec<usize> = Vec::new();
    let mut i: usize = 0;
    while i < chars.len()
        invariant
            i <= chars@.len(),
            chars@ == timehash@,
            valid_hash(chars@),
            out@ == ordinals_spec(chars@.subrange(0, i as int)),
        decreases chars@.len() - i,
    {
        assert(is_symbol(chars@[i as int]));
        let o = match get_ordinal(chars[i]) {
            Ok(o) => o,
            Err(e) => return Err(e),
        };
        out.push(o);
        assert(ordinals_spec(chars@.subrange(0, i + 1)) =~= ordinals_spec(
            chars@.subrange(0, i as int),
        ).push(o));
        i += 1;
    }
    assert(chars@.subrange(0, chars@.len() as int) =~= chars@);
    Ok(out)
}

/// The timehash whose characters have the given ordinals, one character each.
pub fn from_ordinals(ords: &Vec<usize>) -> (r: Result<String, TimehashError>)
    ensures
        r is Ok <==> forall|i: int| 0 <= i < ords@.len() ==> #[trigger] ords@[i] < 8,
        r matches Ok(s) ==> s@ == symbols_spec(ords@) && s@.len() == ords@.len(),
        r matches Err(e) ==> reports_first_out_of_range(ords@, e),
{
    let mut out = String::new();
    let mut i: usize = 0;
    while i < ords.len()
        invariant
            i <= ords@.len(),
            forall|k: int| 0 <= k < i ==> #[trigger] ords@[k] < 8,
            out@ == symbols_spec(ords@.subrange(0, i as int)),
        decreases ords@.len() - i,
    {
        let c = match get_char(ords[i]) {
            Ok(c) => c,
            Err(e) => {
                assert(reports_first_out_of_range(ords@, e)) by {
                    assert(ords@[i as int] >= 8);
                }
                return Err(e);
            },
        };
        proof {
            lemma_ordinal_symbol(ords@[i as int] as nat);
        }
        out.append(symbol_str(c));
        assert(symbols_spec(ords@.subrange(0, i + 1)) =~= symbols_spec(
            ords@.subrange(0, i as int),
        ).push(c));
        i += 1;
    }
    assert(ords@.subrange(0, ords@.len() as int) =~= ords@);
    Ok(out)
}

/// The string `v[0..p] + [c]`, then `k` copies of `fill_with`.
fn splice(v: &Vec<char>, p: usize, c: char, fill_with: char, k: usize) -> (r: String)
    requires
        p <= v@.len(),
        valid_hash(v@),
        is_symbol(c),
        is_symbol(fill_with),
    ensures
        r@ == v@.subrange(0, p as int).push(c) + fill(fill_with, k as nat),
{
    let mut out = String::new();
    let mut j: usize = 0;
    while j < p
        invariant
            j <= p,
            p <= v@.len(),
            valid_hash(v@),
            out@ == v@.subrange(0, j as int),
        decreases p - j,
    {
        assert(is_symbol(v@[j as int]));
        out.append(symbol_str(v[j]));
        assert(v@.subrange(0, j + 1) =~= v@.subrange(0, j as int).push(v@[j as int]));
        j += 1;
    }
    out.append(symbol_str(c));
    let ghost head = out@;
    assert(head =~= v@.subrange(0, p as int).push(c));
    let mut t: usize = 0;
    while t < k
        invariant
            t <= k,
            is_symbol(fill_with),
            out@ == head + fill(fill_with, t as nat),
        decreases k - t,
    {
        out.append(symbol_str(fill_with));
        assert(head + fill(fill_with, (t + 1) as nat) =~= head + fill(fill_with, t as nat) + seq![
            fill_with,
        ]);
        t += 1;
    }
    out
}

/// The timehash of the preceding window of the same length. A hash of only `'0'`
/// names the first window and has no predecessor: the result is then empty.
pub fn before(timehash: &str) -> (r: Result<String, TimehashError>)
    ensures
        r is Ok <==> valid_hash(timehash@),
        r matches Ok(s) ==> s@ == before_spec(timehash@),
        r matches Err(e) ==> reports_first_invalid(timehash@, e),
{
    let v = match symbols_of(timehash) {
        Ok(v) => v,
        Err(e) => return Err(e),
    };
    let n = v.len();
    let mut i: usize = n;
    while i > 0 && v[i - 1] == '0'
        invariant
            i <= n,
            n == v@.len(),
            forall|k: int| i <= k < n ==> v@[k] == '0',
        decreases i,
    {
        i -= 1;
    }
    if i == 0 {
        proof {
            assert(v@ =~= fill('0', n as nat));
            lemma_value_fill('0', n as nat);
        }
        return Ok(String::new());
    }
    let p = i - 1;
    let c = v[p];
    let pred = match get_neighbor_chars(c) {
        Ok((pred, _)) => pred,
        Err(e) => return Err(e),
    };
    let k = n - i;
    let out = splice(&v, p, pred, 'f', k);
    proof {
        let s = v@;
        let a = s.subrange(0, p as int);
        lemma_symbol_ordinal(c);
        lemma_ordinal_symbol(((ord_of(c) + 7) % 8) as nat);
        assert(s =~= a.push(c) + fill('0', k as nat));
        lemma_value_concat(a.push(c), fill('0', k as nat));
        lemma_value_concat(a.push(pred), fill('f', k as nat));
        lemma_value_fill('0', k as nat);
        lemma_value_fill('f', k as nat);
        assert(a.push(c).drop_last() =~= a);
        assert(a.push(pred).drop_last() =~= a);
        let x = value(a);
        let o = ord_of(c);
        let q = pow8(k as nat);
        assert(o >= 1);
        assert((x * 8 + (o - 1)) * q + (q - 1) + 1 == (x * 8 + o) * q) by (nonlinear_arith);
        lemma_pow8_positive(k as nat);
        assert((x * 8 + o) * q >= 1) by (nonlinear_arith)
            requires
                o >= 1,
                q >= 1,
        ;
        assert(valid_hash(out@));
        assert(out@.len() == n);
        lemma_digits_of_value(out@);
    }
    Ok(out)
}

/// The timehash of the succeeding window of the same length. A hash of only `'f'`
/// names the last window and has no successor: the result is then empty.
pub fn after(timehash: &str) -> (r: Result<String, TimehashError>)
    ensures
        r is Ok <==> valid_hash(timehash@),
        r matches Ok(s) ==> s@ == after_spec(timehash@),
        r matches Err(e) ==> reports_first_invalid(timehash@, e),
{
    let v = match symbols_of(timehash) {
        Ok(v) => v,
        Err(e) => return Err(e),
    };
    let n = v.len();
    let mut i: usize = n;
    while i > 0 && v[i - 1] == 'f'
        invariant
            i <= n,
            n == v@.len(),
            forall|k: int| i <= k < n ==> v@[k] == 'f',
        decreases i,
    {
        i -= 1;
    }
    if i == 0 {
        proof {
            assert(v@ =~= fill('f', n as nat));
            lemma_value_fill('f', n as nat);
        }
        return Ok(String::new());
    }
    let p = i - 1;
    let c = v[p];
    let succ = match get_neighbor_chars(c) {
        Ok((_, succ)) => succ,
        Err(e) => return Err(e),
    };
    let k = n - i;
    let out = splice(&v, p, succ, '0', k);
    proof {
        let s = v@;
        let a = s.subrange(0, p as int);
        lemma_symbol_ordinal(c);
        lemma_ordinal_symbol(((ord_of(c) + 1) % 8) as nat);
        assert(s =~= a.push(c) + fill('f', k as nat));
        lemma_value_concat(a.push(c), fill('f', k as nat));
        lemma_value_concat(a.push(succ), fill('0', k as nat));
        lemma_value_fill('0', k as nat);
        lemma_value_fill('f', k as nat);
        assert(a.push(c).drop_last() =~= a);
        assert(a.push(succ).drop_last() =~= a);
        let x = value(a);
        let o = ord_of(c);
        let q = pow8(k as nat);
        assert(o < 7);
        assert((x * 8 + o) * q + (q - 1) + 1 == (x * 8 + (o + 1)) * q) by (nonlinear_arith);
        assert(valid_hash(out@));
        assert(out@.len() == n);
        lemma_value_bound(out@);
        lemma_digits_of_value(out@);
    }
    Ok(out)
}

/// The timehashes of the preceding and the succeeding windows.
pub fn neighbors(timehash: &str) -> (r: Result<(String, String), TimehashError>)
    ensures
        r is Ok <==> valid_hash(timehash@),
        r matches Ok((b, a)) ==> b@ == before_spec(timehash@) && a@ == after_spec(timehash@),
        r matches Err(e) ==> reports_first_invalid(timehash@, e),
{
    let b = match before(timehash) {
        Ok(b) => b,
        Err(e) => return Err(e),
    };
    let a = match after(timehash) {
        Ok(a) => a,
        Err(e) => return Err(e),
    };
    Ok((b, a))
}

/// The timehashes of the preceding window, of this one and of the succeeding one.
pub fn expand(timehash: &str) -> (r: Result<(String, String, String), TimehashError>)
    ensures
        r is Ok <==> valid_hash(timehash@),
        r matches Ok((b, h, a)) ==> b@ == before_spec(timehash@) && h@ == timehash@ && a@
            == after_spec(timehash@),
        r matches Err(e) ==> reports_first_invalid(timehash@, e),
{
    let b = match before(timehash) {
        Ok(b) => b,
        Err(e) => return Err(e),
    };
    let a = match after(timehash) {
        Ok(a) => a,
        Err(e) => return Err(e),
    };
    Ok((b, String::from_str(timehash), a))
}

} // verus!
