//! Shared string machinery: character-vector conversions, lexicographic
//! comparison, splitting, substring replacement, and decimal number
//! rendering and parsing, each tied to a direct specification.

use vstd::prelude::*;
use vstd::string::*;

verus! {

/// Collects the characters of a string slice into a vector.
pub fn str_to_chars(s: &str) -> (r: Vec<char>)
    ensures
        r@ == s@,
{
    let n: usize = s.unicode_len();
    let mut r: Vec<char> = Vec::new();
    let mut i: usize = 0;
    while i < n
        invariant
            n == s@.len(),
            i <= n,
            r@ == s@.subrange(0, i as int),
        decreases n - i,
    {
        r.push(s.get_char(i));
        i = i + 1;
        proof {
            assert(r@ =~= s@.subrange(0, i as int));
        }
    }
    proof {
        assert(r@ =~= s@);
    }
    r
}

/// Relies on `String: FromIterator<char>` (via `Iterator::collect`): the
/// collected string holds exactly the characters of the vector, in order.
#[verifier::external_body]
pub fn chars_to_string(v: &Vec<char>) -> (r: String)
    ensures
        r@ == v@,
{
    v.iter().collect()
}

/// Three-way comparison result for lexicographic string ordering.
#[derive(Clone, Copy, PartialEq, Eq, Structural, Debug)]
pub enum Cmp {
    Lt,
    Eq,
    Gt,
}

/// Strict lexicographic order on character sequences, by Unicode scalar value.
pub open spec fn lex_lt(a: Seq<char>, b: Seq<char>) -> bool
    decreases a.len(),
{
    if b.len() == 0 {
        false
    } else if a.len() == 0 {
        true
    } else if (a[0] as u32) < (b[0] as u32) {
        true
    } else if (a[0] as u32) > (b[0] as u32) {
        false
    } else {
        lex_lt(a.skip(1), b.skip(1))
    }
}

proof fn lemma_char_eq(a: char, b: char)
    requires
        a as u32 == b as u32,
    ensures
        a == b,
{
    assert(a == (a as u32) as char);
    assert(b == (b as u32) as char);
}

/// Walking past a common prefix does not change how two sequences compare.
proof fn lemma_lex_skip(a: Seq<char>, b: Seq<char>, i: int)
    requires
        0 <= i <= a.len(),
        i <= b.len(),
        a.subrange(0, i) == b.subrange(0, i),
    ensures
        lex_lt(a, b) == lex_lt(a.skip(i), b.skip(i)),
    decreases i,
{
    if i > 0 {
        assert(a.subrange(0, i)[0] == a[0]);
        assert(b.subrange(0, i)[0] == b[0]);
        assert(a[0] == b[0]);
        assert(a.skip(1).subrange(0, i - 1) =~= a.subrange(0, i).skip(1));
        assert(b.skip(1).subrange(0, i - 1) =~= b.subrange(0, i).skip(1));
        lemma_lex_skip(a.skip(1), b.skip(1), i - 1);
        assert(a.skip(1).skip(i - 1) =~= a.skip(i));
        assert(b.skip(1).skip(i - 1) =~= b.skip(i));
    } else {
        assert(a.skip(0) =~= a);
        assert(b.skip(0) =~= b);
    }
}

/// Compares two strings lexicographically by Unicode scalar value.
pub fn str_compare(a: &str, b: &str) -> (c: Cmp)
    ensures
        (c == Cmp::Lt) == lex_lt(a@, b@),
        (c == Cmp::Eq) == (a@ == b@),
        (c == Cmp::Gt) == lex_lt(b@, a@),
{
    let an: usize = a.unicode_len();
    let bn: usize = b.unicode_len();
    let mut i: usize = 0;
    loop
        invariant
            an == a@.len(),
            bn == b@.len(),
            i <= an,
            i <= bn,
            a@.subrange(0, i as int) == b@.subrange(0, i as int),
        decreases an - i,
    {
        proof {
            lemma_lex_skip(a@, b@, i as int);
            lemma_lex_skip(b@, a@, i as int);
        }
        if i >= an || i >= bn {
            if an < bn {
                assert(lex_lt(a@.skip(i as int), b@.skip(i as int)));
                return Cmp::Lt;
            } else if an > bn {
                assert(lex_lt(b@.skip(i as int), a@.skip(i as int)));
                return Cmp::Gt;
            } else {
                assert(a@.subrange(0, i as int) =~= a@);
                assert(b@.subrange(0, i as int) =~= b@);
                return Cmp::Eq;
            }
        }
        let ac: char = a.get_char(i);
        let bc: char = b.get_char(i);
        if (ac as u32) < (bc as u32) {
            assert(lex_lt(a@.skip(i as int), b@.skip(i as int)));
            assert(a@[i as int] != b@[i as int]);
            return Cmp::Lt;
        } else if (ac as u32) > (bc as u32) {
            assert(lex_lt(b@.skip(i as int), a@.skip(i as int)));
            assert(a@[i as int] != b@[i as int]);
            return Cmp::Gt;
        } else {
            proof {
                lemma_char_eq(a@[i as int], b@[i as int]);
                assert(a@.subrange(0, i + 1) =~= b@.subrange(0, i + 1));
            }
            i = i + 1;
        }
    }
}

/// True when the two strings hold the same characters.
pub fn str_eq(a: &str, b: &str) -> (r: bool)
    ensures
        r == (a@ == b@),
{
    match str_compare(a, b) {
        Cmp::Eq => true,
        _ => false,
    }
}

/// The order is irreflexive.
pub proof fn lemma_lex_irrefl(a: Seq<char>)
    ensures
        !lex_lt(a, a),
    decreases a.len(),
{
    if a.len() > 0 {
        lemma_lex_irrefl(a.skip(1));
    }
}

/// The order is asymmetric.
pub proof fn lemma_lex_asym(a: Seq<char>, b: Seq<char>)
    ensures
        !(lex_lt(a, b) && lex_lt(b, a)),
    decreases a.len(),
{
    if a.len() > 0 && b.len() > 0 {
        lemma_lex_asym(a.skip(1), b.skip(1));
    }
}

/// The order is transitive.
pub proof fn lemma_lex_trans(a: Seq<char>, b: Seq<char>, c: Seq<char>)
    requires
        lex_lt(a, b),
        lex_lt(b, c),
    ensures
        lex_lt(a, c),
    decreases a.len(),
{
    if c.len() > 0 && a.len() > 0 && b.len() > 0 {
        if (a[0] as u32) == (b[0] as u32) && (b[0] as u32) == (c[0] as u32) {
            lemma_lex_trans(a.skip(1), b.skip(1), c.skip(1));
        }
    }
}

/// Two sequences that neither order is below are equal.
pub proof fn lemma_lex_connex(a: Seq<char>, b: Seq<char>)
    requires
        !lex_lt(a, b),
        !lex_lt(b, a),
    ensures
        a == b,
    decreases a.len(),
{
    if a.len() > 0 && b.len() > 0 {
        lemma_char_eq(a[0], b[0]);
        lemma_lex_connex(a.skip(1), b.skip(1));
        assert(a =~= seq![a[0]] + a.skip(1));
        assert(b =~= seq![b[0]] + b.skip(1));
    } else {
        assert(a.len() == 0 && b.len() == 0);
        assert(a =~= b);
    }
}

/// Splits a sequence at every occurrence of `sep`; the separators are
/// dropped and empty pieces are kept, so the result is never empty.
pub open spec fn spec_split(s: Seq<char>, sep: char) -> Seq<Seq<char>>
    decreases s.len(),
{
    if s.len() == 0 {
        seq![Seq::<char>::empty()]
    } else if s[0] == sep {
        seq![Seq::<char>::empty()] + spec_split(s.skip(1), sep)
    } else {
        let rest = spec_split(s.skip(1), sep);
        seq![seq![s[0]] + rest[0]] + rest.skip(1)
    }
}

pub proof fn lemma_spec_split_len(s: Seq<char>, sep: char)
    ensures
        spec_split(s, sep).len() >= 1,
    decreases s.len(),
{
    if s.len() != 0 {
        lemma_spec_split_len(s.skip(1), sep);
    }
}

/// Splits a character vector at every occurrence of `sep`.
pub fn split_chars(s: &Vec<char>, sep: char) -> (r: Vec<Vec<char>>)
    ensures
        r@.map_values(|p: Vec<char>| p@) == spec_split(s@, sep),
{
    let mut done: Vec<Vec<char>> = Vec::new();
    let mut cur: Vec<char> = Vec::new();
    let mut i: usize = 0;
    proof {
        lemma_spec_split_len(s@, sep);
        assert(s@.skip(0) =~= s@);
        let sp = spec_split(s@, sep);
        assert(Seq::<char>::empty() + sp[0] =~= sp[0]);
        assert(sp =~~= done@.map_values(|p: Vec<char>| p@) + seq![cur@ + sp[0]] + sp.skip(1));
    }
    while i < s.len()
        invariant
            i <= s.len(),
            spec_split(s@.skip(i as int), sep).len() >= 1,
            spec_split(s@, sep) == done@.map_values(|p: Vec<char>| p@) + seq![
                cur@ + spec_split(s@.skip(i as int), sep)[0],
            ] + spec_split(s@.skip(i as int), sep).skip(1),
        decreases s.len() - i,
    {
        let ghost rem = s@.skip(i as int);
        let ghost rem2 = s@.skip(i + 1);
        let ghost prev_done = done@;
        let ghost prev_cur = cur@;
        proof {
            assert(rem.len() > 0);
            assert(rem[0] == s@[i as int]);
            assert(rem.skip(1) =~= rem2);
            lemma_spec_split_len(rem2, sep);
        }
        let c: char = s[i];
        if c == sep {
            let finished = cur;
            cur = Vec::new();
            done.push(finished);
            proof {
                let rest = spec_split(rem2, sep);
                assert(spec_split(rem, sep) =~= seq![Seq::<char>::empty()] + rest);
                assert(spec_split(rem, sep)[0] =~= Seq::<char>::empty());
                assert(spec_split(rem, sep).skip(1) =~= rest);
                assert(prev_cur + Seq::<char>::empty() =~= prev_cur);
                assert(done@.map_values(|p: Vec<char>| p@) =~= prev_done.map_values(
                    |p: Vec<char>| p@,
                ) + seq![prev_cur]);
                assert(rest =~= seq![rest[0]] + rest.skip(1));
                assert(Seq::<char>::empty() + rest[0] =~= rest[0]);
                assert(spec_split(s@, sep) =~= done@.map_values(|p: Vec<char>| p@) + seq![
                    cur@ + rest[0],
                ] + rest.skip(1));
            }
        } else {
            cur.push(c);
            proof {
                let rest = spec_split(rem2, sep);
                assert(spec_split(rem, sep) =~= seq![seq![rem[0]] + rest[0]] + rest.skip(1));
                assert(spec_split(rem, sep)[0] =~= seq![rem[0]] + rest[0]);
                assert(spec_split(rem, sep).skip(1) =~= rest.skip(1));
                assert(cur@ =~= prev_cur + seq![rem[0]]);
                assert(cur@ + rest[0] =~= prev_cur + (seq![rem[0]] + rest[0]));
                assert(spec_split(s@, sep) =~= done@.map_values(|p: Vec<char>| p@) + seq![
                    cur@ + rest[0],
                ] + rest.skip(1));
            }
        }
        i = i + 1;
    }
    let ghost prev_done = done@;
    proof {
        assert(s@.skip(i as int) =~= Seq::<char>::empty());
        assert(spec_split(Seq::<char>::empty(), sep) =~= seq![Seq::<char>::empty()]);
        assert(cur@ + Seq::<char>::empty() =~= cur@);
        assert(spec_split(s@, sep) =~= prev_done.map_values(|p: Vec<char>| p@) + seq![cur@]);
    }
    done.push(cur);
    proof {
        assert(done@.map_values(|p: Vec<char>| p@) =~= prev_done.map_values(|p: Vec<char>| p@)
            + seq![done@.last()@]);
        assert(done@.map_values(|p: Vec<char>| p@) =~= spec_split(s@, sep));
    }
    done
}

/// Appends all characters of `src` to `out`.
pub fn append_chars(out: &mut Vec<char>, src: &Vec<char>)
    ensures
        final(out)@ == old(out)@ + src@,
{
    let mut j: usize = 0;
    while j < src.len()
        invariant
            j <= src.len(),
            out@ == old(out)@ + src@.subrange(0, j as int),
        decreases src.len() - j,
    {
        out.push(src[j]);
        proof {
            assert(out@ =~= old(out)@ + src@.subrange(0, j + 1));
        }
        j = j + 1;
    }
    proof {
        assert(out@ =~= old(out)@ + src@);
    }
}

/// True when `pat` occurs in `s` at position `i`.
pub fn match_at(s: &Vec<char>, i: usize, pat: &Vec<char>) -> (b: bool)
    requires
        i <= s.len(),
    ensures
        b == (i + pat@.len() <= s@.len() && s@.subrange(i as int, i + pat@.len()) == pat@),
{
    if pat.len() > s.len() - i {
        return false;
    }
    let slen: usize = s.len();
    let mut j: usize = 0;
    while j < pat.len()
        invariant
            slen == s@.len(),
            i + pat@.len() <= slen,
            j <= pat.len(),
            s@.subrange(i as int, i + j) == pat@.subrange(0, j as int),
        decreases pat.len() - j,
    {
        assert(i + j < slen);
        if s[i + j] != pat[j] {
            proof {
                assert(s@.subrange(i as int, i + pat@.len())[j as int] == s@[i + j]);
            }
            return false;
        }
        proof {
            assert(s@.subrange(i as int, i + j + 1) =~= s@.subrange(i as int, i + j) + seq![
                s@[i + j],
            ]);
            assert(pat@.subrange(0, j + 1) =~= pat@.subrange(0, j as int) + seq![pat@[j as int]]);
        }
        j = j + 1;
    }
    proof {
        assert(pat@.subrange(0, pat@.len() as int) =~= pat@);
    }
    true
}

/// `s` with every occurrence of `pat`, scanned left to right without
/// overlap, replaced by `rep`.
pub open spec fn spec_replace(s: Seq<char>, pat: Seq<char>, rep: Seq<char>) -> Seq<char>
    decreases s.len(),
    when pat.len() > 0
{
    if s.len() == 0 {
        s
    } else if pat.len() <= s.len() && s.subrange(0, pat.len() as int) == pat {
        rep + spec_replace(s.skip(pat.len() as int), pat, rep)
    } else {
        seq![s[0]] + spec_replace(s.skip(1), pat, rep)
    }
}

/// Replaces every occurrence of `pat` in `s` by `rep`, left to right.
pub fn replace_chars(s: &Vec<char>, pat: &Vec<char>, rep: &Vec<char>) -> (r: Vec<char>)
    requires
        pat.len() > 0,
    ensures
        r@ == spec_replace(s@, pat@, rep@),
{
    let mut out: Vec<char> = Vec::new();
    let mut i: usize = 0;
    proof {
        assert(s@.skip(0) =~= s@);
    }
    while i < s.len()
        invariant
            i <= s.len(),
            pat@.len() > 0,
            spec_replace(s@, pat@, rep@) == out@ + spec_replace(s@.skip(i as int), pat@, rep@),
        decreases s.len() - i,
    {
        let ghost rem = s@.skip(i as int);
        let ghost prev_out = out@;
        if match_at(s, i, pat) {
            proof {
                assert(rem.subrange(0, pat@.len() as int) =~= s@.subrange(
                    i as int,
                    i + pat@.len(),
                ));
                assert(rem.skip(pat@.len() as int) =~= s@.skip(i + pat@.len()));
            }
            append_chars(&mut out, rep);
            i = i + pat.len();
            proof {
                assert(spec_replace(s@, pat@, rep@) =~= out@ + spec_replace(
                    s@.skip(i as int),
                    pat@,
                    rep@,
                ));
            }
        } else {
            proof {
                if pat@.len() <= rem.len() {
                    assert(rem.subrange(0, pat@.len() as int) =~= s@.subrange(
                        i as int,
                        i + pat@.len(),
                    ));
                }
                assert(rem[0] == s@[i as int]);
                assert(rem.skip(1) =~= s@.skip(i + 1));
            }
            out.push(s[i]);
            i = i + 1;
            proof {
                assert(prev_out + (seq![rem[0]] + spec_replace(s@.skip(i as int), pat@, rep@))
                    =~= out@ + spec_replace(s@.skip(i as int), pat@, rep@));
            }
        }
    }
    proof {
        assert(s@.skip(i as int) =~= Seq::<char>::empty());
        assert(out@ + Seq::<char>::empty() =~= out@);
    }
    out
}

/// The decimal digit character for `d` in `0 ..= 9`.
pub open spec fn digit_char(d: int) -> char {
    if d == 0 {
        '0'
    } else if d == 1 {
        '1'
    } else if d == 2 {
        '2'
    } else if d == 3 {
        '3'
    } else if d == 4 {
        '4'
    } else if d == 5 {
        '5'
    } else if d == 6 {
        '6'
    } else if d == 7 {
        '7'
    } else if d == 8 {
        '8'
    } else {
        '9'
    }
}

/// The decimal rendering of a natural number, without sign or padding.
pub open spec fn u_chars(n: nat) -> Seq<char>
    decreases n,
{
    if n < 10 {
        seq![digit_char(n as int)]
    } else {
        u_chars(n / 10) + seq![digit_char((n % 10) as int)]
    }
}

/// The decimal rendering of an integer, with `-` for negative values.
pub open spec fn i_chars(n: int) -> Seq<char> {
    if n < 0 {
        seq!['-'] + u_chars((-n) as nat)
    } else {
        u_chars(n as nat)
    }
}

fn digit_exec(d: u64) -> (c: char)
    requires
        d < 10,
    ensures
        c == digit_char(d as int),
{
    if d == 0 {
        '0'
    } else if d == 1 {
        '1'
    } else if d == 2 {
        '2'
    } else if d == 3 {
        '3'
    } else if d == 4 {
        '4'
    } else if d == 5 {
        '5'
    } else if d == 6 {
        '6'
    } else if d == 7 {
        '7'
    } else if d == 8 {
        '8'
    } else {
        '9'
    }
}

/// Appends the decimal rendering of `n` to `out`.
pub fn push_u64_chars(out: &mut Vec<char>, n: u64)
    ensures
        final(out)@ == old(out)@ + u_chars(n as nat),
    decreases n,
{
    if n >= 10 {
        push_u64_chars(out, n / 10);
    }
    out.push(digit_exec(n % 10));
    proof {
        if n >= 10 {
            assert(out@ =~= old(out)@ + u_chars(n as nat));
        } else {
            assert(out@ =~= old(out)@ + u_chars(n as nat));
        }
    }
}

/// The decimal rendering of `n` as a character vector.
pub fn u64_to_chars(n: u64) -> (r: Vec<char>)
    ensures
        r@ == u_chars(n as nat),
{
    let mut out: Vec<char> = Vec::new();
    push_u64_chars(&mut out, n);
    out
}

/// The decimal rendering of `n` as a string.
pub fn u64_to_string(n: u64) -> (r: String)
    ensures
        r@ == u_chars(n as nat),
{
    let v = u64_to_chars(n);
    chars_to_string(&v)
}

/// The decimal rendering of `n`, with a leading `-` when negative.
pub fn i64_to_chars(n: i64) -> (r: Vec<char>)
    ensures
        r@ == i_chars(n as int),
{
    let mut out: Vec<char> = Vec::new();
    if n < 0 {
        out.push('-');
        let mag: u64 = if n == i64::MIN {
            9223372036854775808u64
        } else {
            (-n) as u64
        };
        push_u64_chars(&mut out, mag);
        proof {
            assert(out@ =~= seq!['-'] + u_chars(mag as nat));
        }
    } else {
        push_u64_chars(&mut out, n as u64);
    }
    out
}

/// True for a decimal digit character.
pub open spec fn is_digit(c: char) -> bool {
    48 <= c as u32 <= 57
}

/// The numeric value of a digit character.
pub open spec fn digit_val(c: char) -> int {
    c as u32 - 48
}

pub open spec fn all_digits(s: Seq<char>) -> bool {
    forall|i: int| 0 <= i < s.len() ==> is_digit(#[trigger] s[i])
}

/// The value of a digit sequence read in base ten.
pub open spec fn dec_val(s: Seq<char>) -> int
    decreases s.len(),
{
    if s.len() == 0 {
        0
    } else {
        dec_val(s.drop_last()) * 10 + digit_val(s.last())
    }
}

/// A non-empty, all-digit sequence: what an unsigned decimal parser accepts.
pub open spec fn is_uint_chars(s: Seq<char>) -> bool {
    s.len() > 0 && all_digits(s)
}

/// An optional `+` or `-` sign followed by digits: what a signed decimal
/// parser accepts.
pub open spec fn is_int_chars(s: Seq<char>) -> bool {
    if s.len() > 0 && (s[0] == '-' || s[0] == '+') {
        is_uint_chars(s.skip(1))
    } else {
        is_uint_chars(s)
    }
}

/// The signed value of a decimal sequence accepted by `is_int_chars`.
pub open spec fn int_chars_val(s: Seq<char>) -> int {
    if s.len() > 0 && s[0] == '-' {
        -dec_val(s.skip(1))
    } else if s.len() > 0 && s[0] == '+' {
        dec_val(s.skip(1))
    } else {
        dec_val(s)
    }
}

pub proof fn lemma_dec_val_nonneg(s: Seq<char>)
    requires
        all_digits(s),
    ensures
        dec_val(s) >= 0,
    decreases s.len(),
{
    if s.len() > 0 {
        assert(all_digits(s.drop_last())) by {
            assert(forall|i: int|
                0 <= i < s.len() - 1 ==> s.drop_last()[i] == #[trigger] s[i]);
        }
        lemma_dec_val_nonneg(s.drop_last());
    }
}

/// Extending a digit sequence on the right can only increase its value.
pub proof fn lemma_dec_val_prefix(s: Seq<char>, i: int)
    requires
        all_digits(s),
        0 <= i <= s.len(),
    ensures
        dec_val(s.subrange(0, i)) <= dec_val(s),
    decreases s.len() - i,
{
    if i < s.len() {
        lemma_dec_val_prefix(s, i + 1);
        let p = s.subrange(0, i);
        let q = s.subrange(0, i + 1);
        assert(q.drop_last() =~= p);
        assert(all_digits(p)) by {
            assert(forall|j: int| 0 <= j < p.len() ==> p[j] == #[trigger] s[j]);
        }
        lemma_dec_val_nonneg(p);
        assert(dec_val(q) == dec_val(p) * 10 + digit_val(s[i]));
        assert(dec_val(p) * 10 >= dec_val(p)) by (nonlinear_arith)
            requires
                dec_val(p) >= 0,
        ;
    } else {
        assert(s.subrange(0, i) =~= s);
    }
}

/// Parses the digits of `s` from position `from` as an unsigned decimal
/// number, rejecting empty or non-digit input and values over `u64::MAX`.
pub fn parse_u64_range(s: &Vec<char>, from: usize) -> (r: Option<u64>)
    requires
        from <= s.len(),
    ensures
        r is Some <==> is_uint_chars(s@.skip(from as int)) && dec_val(s@.skip(from as int))
            <= u64::MAX,
        r is Some ==> r.unwrap() == dec_val(s@.skip(from as int)),
{
    let ghost digits = s@.skip(from as int);
    if from == s.len() {
        return None;
    }
    let mut acc: u64 = 0;
    let mut i: usize = from;
    while i < s.len()
        invariant
            from <= i <= s.len(),
            from < s.len(),
            digits == s@.skip(from as int),
            all_digits(digits.subrange(0, i - from)),
            acc == dec_val(digits.subrange(0, i - from)),
        decreases s.len() - i,
    {
        let c: char = s[i];
        let u: u32 = c as u32;
        proof {
            assert(digits[i - from] == s@[i as int]);
        }
        if u < 48 || u > 57 {
            proof {
                assert(!is_digit(digits[i - from]));
            }
            return None;
        }
        let d: u64 = (u - 48) as u64;
        let ghost pfx = digits.subrange(0, i - from);
        let ghost pfx2 = digits.subrange(0, i + 1 - from);
        proof {
            assert(pfx2.drop_last() =~= pfx);
            assert(pfx2.last() == digits[i - from]);
            assert(all_digits(pfx2)) by {
                assert(forall|j: int|
                    0 <= j < pfx2.len() ==> pfx2[j] == #[trigger] digits.subrange(
                        0,
                        i + 1 - from,
                    )[j]);
            }
        }
        let step = match acc.checked_mul(10) {
            Some(m) => m.checked_add(d),
            None => None,
        };
        match step {
            Some(v) => {
                acc = v;
            }
            None => {
                proof {
                    assert(dec_val(pfx2) == acc * 10 + d);
                    assert(dec_val(pfx2) > u64::MAX);
                    if all_digits(digits) {
                        lemma_dec_val_prefix(digits, i + 1 - from);
                        assert(dec_val(digits) > u64::MAX);
                    }
                }
                return None;
            }
        }
        i = i + 1;
    }
    proof {
        assert(digits.subrange(0, i - from) =~= digits);
    }
    Some(acc)
}

/// Parses an entire character vector as an unsigned decimal number.
pub fn parse_u64_chars(s: &Vec<char>) -> (r: Option<u64>)
    ensures
        r is Some <==> is_uint_chars(s@) && dec_val(s@) <= u64::MAX,
        r is Some ==> r.unwrap() == dec_val(s@),
{
    proof {
        assert(s@.skip(0) =~= s@);
    }
    parse_u64_range(s, 0)
}

/// Parses a signed decimal number, accepting an optional leading `+` or
/// `-`, exactly when the value fits in an `i64`.
pub fn parse_i64_chars(s: &Vec<char>) -> (r: Option<i64>)
    ensures
        r is Some <==> is_int_chars(s@) && i64::MIN <= int_chars_val(s@) <= i64::MAX,
        r is Some ==> r.unwrap() == int_chars_val(s@),
{
    if s.len() == 0 {
        return None;
    }
    let c0: char = s[0];
    if c0 == '-' {
        match parse_u64_range(s, 1) {
            Some(mag) => {
                proof {
                    lemma_dec_val_nonneg(s@.skip(1));
                }
                if mag <= 9223372036854775807u64 {
                    Some(-(mag as i64))
                } else if mag == 9223372036854775808u64 {
                    Some(i64::MIN)
                } else {
                    None
                }
            }
            None => {
                proof {
                    if is_uint_chars(s@.skip(1)) {
                        lemma_dec_val_nonneg(s@.skip(1));
                    }
                }
                None
            }
        }
    } else if c0 == '+' {
        match parse_u64_range(s, 1) {
            Some(mag) => {
                proof {
                    lemma_dec_val_nonneg(s@.skip(1));
                }
                if mag <= 9223372036854775807u64 {
                    Some(mag as i64)
                } else {
                    None
                }
            }
            None => None,
        }
    } else {
        match parse_u64_range(s, 0) {
            Some(mag) => {
                proof {
                    assert(s@.skip(0) =~= s@);
                    lemma_dec_val_nonneg(s@);
                }
                if mag <= 9223372036854775807u64 {
                    Some(mag as i64)
                } else {
                    None
                }
            }
            None => {
                proof {
                    assert(s@.skip(0) =~= s@);
                }
                None
            }
        }
    }
}

/// Parses a signed decimal number exactly when the value fits in an `i32`.
pub fn parse_i32_chars(s: &Vec<char>) -> (r: Option<i32>)
    ensures
        r is Some <==> is_int_chars(s@) && i32::MIN <= int_chars_val(s@) <= i32::MAX,
        r is Some ==> r.unwrap() == int_chars_val(s@),
{
    match parse_i64_chars(s) {
        Some(v) => {
            if v >= -2147483648i64 && v <= 2147483647i64 {
                Some(v as i32)
            } else {
                None
            }
        }
        None => {
            proof {
                if is_int_chars(s@) {
                    if s@[0] == '-' {
                        lemma_dec_val_nonneg(s@.skip(1));
                    } else if s@[0] == '+' {
                        lemma_dec_val_nonneg(s@.skip(1));
                    } else {
                        lemma_dec_val_nonneg(s@);
                    }
                }
            }
            None
        }
    }
}

/// Parses an unsigned decimal number exactly when the value fits in a
/// `usize`.
pub fn parse_usize_chars(s: &Vec<char>) -> (r: Option<usize>)
    ensures
        r is Some <==> is_uint_chars(s@) && dec_val(s@) <= usize::MAX,
        r is Some ==> r.unwrap() == dec_val(s@),
{
    match parse_u64_chars(s) {
        Some(v) => {
            if v <= usize::MAX as u64 {
                Some(v as usize)
            } else {
                proof {
                    lemma_dec_val_nonneg(s@);
                }
                None
            }
        }
        None => {
            proof {
                if is_uint_chars(s@) {
                    lemma_dec_val_nonneg(s@);
                    if dec_val(s@) <= usize::MAX {
                        assert(usize::MAX as u64 <= u64::MAX);
                        assert(dec_val(s@) <= u64::MAX);
                    }
                }
            }
            None
        }
    }
}

/// ASCII lower-casing of one character: `A ..= Z` maps to `a ..= z`.
pub open spec fn lower_char(c: char) -> char {
    if 65 <= c as u32 <= 90 {
        ((c as u32 + 32) as u32) as char
    } else {
        c
    }
}

/// ASCII lower-casing of a character sequence.
pub open spec fn lower_chars(s: Seq<char>) -> Seq<char> {
    s.map_values(|c: char| lower_char(c))
}

pub fn lower_char_exec(c: char) -> (r: char)
    ensures
        r == lower_char(c),
{
    match c {
        'A' => 'a',
        'B' => 'b',
        'C' => 'c',
        'D' => 'd',
        'E' => 'e',
        'F' => 'f',
        'G' => 'g',
        'H' => 'h',
        'I' => 'i',
        'J' => 'j',
        'K' => 'k',
        'L' => 'l',
        'M' => 'm',
        'N' => 'n',
        'O' => 'o',
        'P' => 'p',
        'Q' => 'q',
        'R' => 'r',
        'S' => 's',
        'T' => 't',
        'U' => 'u',
        'V' => 'v',
        'W' => 'w',
        'X' => 'x',
        'Y' => 'y',
        'Z' => 'z',
        _ => {
            proof {
                assert(!(65 <= c as u32 <= 90));
            }
            c
        }
    }
}

/// ASCII lower-casing of a character vector.
pub fn lower_chars_exec(s: &Vec<char>) -> (r: Vec<char>)
    ensures
        r@ == lower_chars(s@),
{
    let mut out: Vec<char> = Vec::new();
    let mut i: usize = 0;
    while i < s.len()
        invariant
            i <= s.len(),
            out@ == s@.subrange(0, i as int).map_values(|c: char| lower_char(c)),
        decreases s.len() - i,
    {
        out.push(lower_char_exec(s[i]));
        proof {
            assert(out@ =~= s@.subrange(0, i + 1).map_values(|c: char| lower_char(c)));
        }
        i = i + 1;
    }
    proof {
        assert(s@.subrange(0, i as int) =~= s@);
    }
    out
}

/// The pieces joined with `sep` between consecutive pieces.
pub open spec fn spec_join(parts: Seq<Seq<char>>, sep: Seq<char>) -> Seq<char>
    decreases parts.len(),
{
    if parts.len() == 0 {
        Seq::empty()
    } else if parts.len() == 1 {
        parts[0]
    } else {
        parts[0] + sep + spec_join(parts.skip(1), sep)
    }
}

/// Joining splits around any interior position.
pub proof fn lemma_join_split(parts: Seq<Seq<char>>, sep: Seq<char>, i: int)
    requires
        0 < i < parts.len(),
    ensures
        spec_join(parts, sep) == spec_join(parts.take(i), sep) + sep + spec_join(
            parts.skip(i),
            sep,
        ),
    decreases i,
{
    if i == 1 {
        assert(parts.take(1) =~= seq![parts[0]]);
        assert(spec_join(parts.take(1), sep) == parts[0]);
        assert(parts.skip(1)[0] == parts[1]);
    } else {
        lemma_join_split(parts.skip(1), sep, i - 1);
        assert(parts.skip(1).take(i - 1) =~= parts.take(i).skip(1));
        assert(parts.skip(1).skip(i - 1) =~= parts.skip(i));
        assert(parts.take(i).len() == i);
        assert(parts.take(i)[0] == parts[0]);
        assert(spec_join(parts.take(i), sep) == parts[0] + sep + spec_join(
            parts.take(i).skip(1),
            sep,
        ));
        assert(spec_join(parts, sep) =~= spec_join(parts.take(i), sep) + sep + spec_join(
            parts.skip(i),
            sep,
        ));
    }
}

/// Joins character vectors with a separator.
pub fn join_chars(parts: &Vec<Vec<char>>, sep: &Vec<char>) -> (r: Vec<char>)
    ensures
        r@ == spec_join(parts@.map_values(|p: Vec<char>| p@), sep@),
{
    let ghost pv = parts@.map_values(|p: Vec<char>| p@);
    let mut out: Vec<char> = Vec::new();
    let mut i: usize = 0;
    while i < parts.len()
        invariant
            i <= parts.len(),
            pv == parts@.map_values(|p: Vec<char>| p@),
            i == 0 ==> out@ == Seq::<char>::empty(),
            i > 0 ==> out@ == spec_join(pv.take(i as int), sep@),
        decreases parts.len() - i,
    {
        if i > 0 {
            append_chars(&mut out, sep);
        }
        append_chars(&mut out, &parts[i]);
        proof {
            assert(pv[i as int] == parts@[i as int]@);
            if i == 0 {
                assert(pv.take(1) =~= seq![pv[0]]);
                assert(spec_join(pv.take(1), sep@) == pv[0]);
                assert(out@ =~= pv[0]);
            } else {
                lemma_join_split(pv.take(i + 1), sep@, i as int);
                assert(pv.take(i + 1).take(i as int) =~= pv.take(i as int));
                assert(pv.take(i + 1).skip(i as int) =~= seq![pv[i as int]]);
                assert(spec_join(seq![pv[i as int]], sep@) == pv[i as int]);
            }
        }
        i = i + 1;
    }
    proof {
        if parts.len() == 0 {
            assert(spec_join(pv, sep@) == Seq::<char>::empty());
        } else {
            assert(pv.take(i as int) =~= pv);
        }
    }
    out
}

/// Splits a sequence at every occurrence of the separator string,
/// scanning left to right without overlap; empty pieces are kept, so the
/// result is never empty.
pub open spec fn spec_split_str(s: Seq<char>, sep: Seq<char>) -> Seq<Seq<char>>
    decreases s.len(),
    when sep.len() > 0
{
    if s.len() == 0 {
        seq![Seq::<char>::empty()]
    } else if sep.len() <= s.len() && s.subrange(0, sep.len() as int) == sep {
        seq![Seq::<char>::empty()] + spec_split_str(s.skip(sep.len() as int), sep)
    } else {
        let rest = spec_split_str(s.skip(1), sep);
        seq![seq![s[0]] + rest[0]] + rest.skip(1)
    }
}

pub proof fn lemma_spec_split_str_len(s: Seq<char>, sep: Seq<char>)
    requires
        sep.len() > 0,
    ensures
        spec_split_str(s, sep).len() >= 1,
    decreases s.len(),
{
    if s.len() != 0 {
        if sep.len() <= s.len() && s.subrange(0, sep.len() as int) == sep {
            lemma_spec_split_str_len(s.skip(sep.len() as int), sep);
        } else {
            lemma_spec_split_str_len(s.skip(1), sep);
        }
    }
}

/// Splits a character vector at every occurrence of the separator string.
pub fn split_str_chars(s: &Vec<char>, sep: &Vec<char>) -> (r: Vec<Vec<char>>)
    requires
        sep.len() > 0,
    ensures
        r@.map_values(|p: Vec<char>| p@) == spec_split_str(s@, sep@),
{
    let mut done: Vec<Vec<char>> = Vec::new();
    let mut cur: Vec<char> = Vec::new();
    let mut i: usize = 0;
    proof {
        lemma_spec_split_str_len(s@, sep@);
        assert(s@.skip(0) =~= s@);
        let sp = spec_split_str(s@, sep@);
        assert(Seq::<char>::empty() + sp[0] =~= sp[0]);
        assert(sp =~~= done@.map_values(|p: Vec<char>| p@) + seq![cur@ + sp[0]] + sp.skip(1));
    }
    while i < s.len()
        invariant
            i <= s.len(),
            sep@.len() > 0,
            spec_split_str(s@.skip(i as int), sep@).len() >= 1,
            spec_split_str(s@, sep@) == done@.map_values(|p: Vec<char>| p@) + seq![
                cur@ + spec_split_str(s@.skip(i as int), sep@)[0],
            ] + spec_split_str(s@.skip(i as int), sep@).skip(1),
        decreases s.len() - i,
    {
        let ghost rem = s@.skip(i as int);
        let ghost rem2 = s@.skip(i + 1);
        let ghost prev_done = done@;
        let ghost prev_cur = cur@;
        proof {
            assert(rem.len() > 0);
            assert(rem[0] == s@[i as int]);
            assert(rem.skip(1) =~= rem2);
        }
        if match_at(s, i, sep) {
            let ghost remn = s@.skip(i + sep@.len());
            proof {
                assert(rem.subrange(0, sep@.len() as int) =~= s@.subrange(
                    i as int,
                    i + sep@.len(),
                ));
                assert(rem.skip(sep@.len() as int) =~= remn);
                lemma_spec_split_str_len(remn, sep@);
            }
            let finished = cur;
            cur = Vec::new();
            done.push(finished);
            i = i + sep.len();
            proof {
                let rest = spec_split_str(remn, sep@);
                assert(spec_split_str(rem, sep@) =~= seq![Seq::<char>::empty()] + rest);
                assert(spec_split_str(rem, sep@)[0] =~= Seq::<char>::empty());
                assert(spec_split_str(rem, sep@).skip(1) =~= rest);
                assert(prev_cur + Seq::<char>::empty() =~= prev_cur);
                assert(done@.map_values(|p: Vec<char>| p@) =~= prev_done.map_values(
                    |p: Vec<char>| p@,
                ) + seq![prev_cur]);
                assert(rest =~= seq![rest[0]] + rest.skip(1));
                assert(Seq::<char>::empty() + rest[0] =~= rest[0]);
                assert(spec_split_str(s@, sep@) =~= done@.map_values(|p: Vec<char>| p@) + seq![
                    cur@ + rest[0],
                ] + rest.skip(1));
            }
        } else {
            proof {
                if sep@.len() <= rem.len() {
                    assert(rem.subrange(0, sep@.len() as int) =~= s@.subrange(
                        i as int,
                        i + sep@.len(),
                    ));
                }
                lemma_spec_split_str_len(rem2, sep@);
            }
            cur.push(s[i]);
            i = i + 1;
            proof {
                let rest = spec_split_str(rem2, sep@);
                assert(spec_split_str(rem, sep@) =~= seq![seq![rem[0]] + rest[0]] + rest.skip(1));
                assert(spec_split_str(rem, sep@)[0] =~= seq![rem[0]] + rest[0]);
                assert(spec_split_str(rem, sep@).skip(1) =~= rest.skip(1));
                assert(cur@ =~= prev_cur + seq![rem[0]]);
                assert(cur@ + rest[0] =~= prev_cur + (seq![rem[0]] + rest[0]));
                assert(spec_split_str(s@, sep@) =~= done@.map_values(|p: Vec<char>| p@) + seq![
                    cur@ + rest[0],
                ] + rest.skip(1));
            }
        }
    }
    let ghost prev_done = done@;
    proof {
        assert(s@.skip(i as int) =~= Seq::<char>::empty());
        assert(spec_split_str(Seq::<char>::empty(), sep@) =~= seq![Seq::<char>::empty()]);
        assert(cur@ + Seq::<char>::empty() =~= cur@);
        assert(spec_split_str(s@, sep@) =~= prev_done.map_values(|p: Vec<char>| p@) + seq![cur@]);
    }
    done.push(cur);
    proof {
        assert(done@.map_values(|p: Vec<char>| p@) =~= prev_done.map_values(|p: Vec<char>| p@)
            + seq![done@.last()@]);
        assert(done@.map_values(|p: Vec<char>| p@) =~= spec_split_str(s@, sep@));
    }
    done
}

/// Copies the characters of `s` between `from` and `to`.
pub fn sub_chars(s: &Vec<char>, from: usize, to: usize) -> (r: Vec<char>)
    requires
        from <= to <= s.len(),
    ensures
        r@ == s@.subrange(from as int, to as int),
{
    let mut out: Vec<char> = Vec::new();
    let mut i: usize = from;
    while i < to
        invariant
            from <= i <= to <= s.len(),
            out@ == s@.subrange(from as int, i as int),
        decreases to - i,
    {
        out.push(s[i]);
        proof {
            assert(out@ =~= s@.subrange(from as int, i + 1));
        }
        i = i + 1;
    }
    out
}

/// True when the two vectors hold the same characters.
pub fn chars_eq(a: &Vec<char>, b: &Vec<char>) -> (r: bool)
    ensures
        r == (a@ == b@),
{
    if a.len() != b.len() {
        return false;
    }
    let r = match_at(a, 0, b);
    proof {
        assert(a@.subrange(0, b@.len() as int) =~= a@);
    }
    r
}

/// The JSON-relevant whitespace characters: space, tab, line feed,
/// carriage return.
pub open spec fn is_ws(c: char) -> bool {
    c == ' ' || c == '\t' || c == '\n' || c == '\r'
}

pub fn is_ws_exec(c: char) -> (b: bool)
    ensures
        b == is_ws(c),
{
    c == ' ' || c == '\t' || c == '\n' || c == '\r'
}

} // verus!
