//! Transaction ids and their on-disk string form.
//!
//! Version files are named by the decimal string form of their transaction
//! id. Rendering and parsing round-trip, so the ordering of version file
//! names (compared by parsing) agrees with the ordering of transaction ids.

use vstd::prelude::*;

verus! {

/// The decimal digit character for `d < 10`.
pub open spec fn digit_char(d: u64) -> char {
    if d == 0 {
        '0'
    } else if d == 1 {
        '1'
    } else if d == 2 {
        '2'
    } else if d == 3 {
        '3'
    } else if d == 4 {
        '4'
    } else if d == 5 {
        '5'
    } else if d == 6 {
        '6'
    } else if d == 7 {
        '7'
    } else if d == 8 {
        '8'
    } else {
        '9'
    }
}

/// The numeric value of a decimal digit character, if it is one.
pub open spec fn char_digit(c: char) -> Option<u64> {
    if c == '0' {
        Some(0u64)
    } else if c == '1' {
        Some(1u64)
    } else if c == '2' {
        Some(2u64)
    } else if c == '3' {
        Some(3u64)
    } else if c == '4' {
        Some(4u64)
    } else if c == '5' {
        Some(5u64)
    } else if c == '6' {
        Some(6u64)
    } else if c == '7' {
        Some(7u64)
    } else if c == '8' {
        Some(8u64)
    } else if c == '9' {
        Some(9u64)
    } else {
        None
    }
}

/// The decimal rendering of `n`, most significant digit first.
pub open spec fn spec_render(n: u64) -> Seq<char>
    decreases n,
{
    if n < 10 {
        seq![digit_char(n)]
    } else {
        spec_render(n / 10) + seq![digit_char(n % 10)]
    }
}

/// The value of the digit sequence `s` accumulated onto `acc`, or `None` if
/// `s` holds a non-digit or the value would not fit in 64 bits.
pub open spec fn spec_parse_rec(s: Seq<char>, acc: u64) -> Option<u64>
    decreases s.len(),
{
    if s.len() == 0 {
        Some(acc)
    } else {
        match char_digit(s[0]) {
            Some(d) => {
                if acc > (u64::MAX - d) / 10 {
                    None
                } else {
                    spec_parse_rec(s.drop_first(), (acc * 10 + d) as u64)
                }
            },
            None => None,
        }
    }
}

/// The transaction id named by `s`, if `s` is a non-empty decimal numeral
/// that fits in 64 bits.
pub open spec fn spec_parse(s: Seq<char>) -> Option<u64> {
    if s.len() == 0 {
        None
    } else {
        spec_parse_rec(s, 0)
    }
}

/// Render a transaction id as the name of its version file.
pub fn txn_name(n: u64) -> (r: String)
    ensures
        r@ == spec_render(n),
    decreases n,
{
    let d = n % 10;
    let digit: &'static str = digit_str(d);
    if n < 10 {
        proof {
            reveal_strlit("");
        }
        let mut s = String::new();
        s.append(digit);
        assert(s@ =~= spec_render(n));
        s
    } else {
        let mut s = txn_name(n / 10);
        s.append(digit);
        assert(s@ =~= spec_render(n));
        s
    }
}

fn digit_str(d: u64) -> (r: &'static str)
    requires
        d < 10,
    ensures
        r@ =~= seq![digit_char(d)],
{
    proof {
        reveal_strlit("0");
        reveal_strlit("1");
        reveal_strlit("2");
        reveal_strlit("3");
        reveal_strlit("4");
        reveal_strlit("5");
        reveal_strlit("6");
        reveal_strlit("7");
        reveal_strlit("8");
        reveal_strlit("9");
    }
    if d == 0 {
        "0"
    } else if d == 1 {
        "1"
    } else if d == 2 {
        "2"
    } else if d == 3 {
        "3"
    } else if d == 4 {
        "4"
    } else if d == 5 {
        "5"
    } else if d == 6 {
        "6"
    } else if d == 7 {
        "7"
    } else if d == 8 {
        "8"
    } else {
        "9"
    }
}

fn char_digit_exec(c: char) -> (r: Option<u64>)
    ensures
        r == char_digit(c),
{
    if c == '0' {
        Some(0u64)
    } else if c == '1' {
        Some(1u64)
    } else if c == '2' {
        Some(2u64)
    } else if c == '3' {
        Some(3u64)
    } else if c == '4' {
        Some(4u64)
    } else if c == '5' {
        Some(5u64)
    } else if c == '6' {
        Some(6u64)
    } else if c == '7' {
        Some(7u64)
    } else if c == '8' {
        Some(8u64)
    } else if c == '9' {
        Some(9u64)
    } else {
        None
    }
}

/// Parse the name of a version file back into its transaction id.
pub fn parse_txn(s: &str) -> (r: Option<u64>)
    ensures
        r == spec_parse(s@),
{
    let len = s.unicode_len();
    if len == 0 {
        return None;
    }
    let mut acc: u64 = 0;
    let mut i: usize = 0;
    proof {
        assert(s@.subrange(0, len as int) =~= s@);
    }
    while i < len
        invariant
            0 < len == s@.len(),
            i <= len,
            spec_parse_rec(s@, 0) == spec_parse_rec(s@.subrange(i as int, len as int), acc),
        decreases len - i,
    {
        let ghost pre = s@.subrange(i as int, len as int);
        let c = s.get_char(i);
        assert(pre[0] == c);
        match char_digit_exec(c) {
            Some(d) => {
                if acc > (u64::MAX - d) / 10 {
                    assert(spec_parse_rec(pre, acc) is None);
                    return None;
                }
                acc = acc * 10 + d;
            },
            None => {
                assert(spec_parse_rec(pre, acc) is None);
                return None;
            },
        }
        i = i + 1;
        assert(pre.drop_first() =~= s@.subrange(i as int, len as int));
    }
    assert(s@.subrange(len as int, len as int).len() == 0);
    Some(acc)
}

/// Rendering never produces an empty or leading-zero-padded numeral, and
/// every rendered character is a decimal digit.
pub proof fn lemma_render_digits(n: u64)
    ensures
        spec_render(n).len() > 0,
        forall|i: int| 0 <= i < spec_render(n).len() ==> char_digit(
            #[trigger] spec_render(n)[i],
        ) is Some,
    decreases n,
{
    if n >= 10 {
        lemma_render_digits(n / 10);
    }
}

proof fn lemma_parse_rec_append(s: Seq<char>, d: u64, acc: u64, v: u64)
    requires
        d < 10,
        spec_parse_rec(s, acc) == Some(v),
        v <= (u64::MAX - d) / 10,
    ensures
        spec_parse_rec(s + seq![digit_char(d)], acc) == Some((v * 10 + d) as u64),
    decreases s.len(),
{
    if s.len() == 0 {
        let s2 = s + seq![digit_char(d)];
        assert(s2[0] == digit_char(d));
        assert(char_digit(digit_char(d)) == Some(d));
        assert(s2.drop_first() =~= Seq::<char>::empty());
        assert(acc == v);
        assert(acc * 10 + d <= u64::MAX) by (nonlinear_arith)
            requires
                acc <= (u64::MAX - d) / 10,
                d < 10,
        ;
        assert(spec_parse_rec(s2.drop_first(), (acc * 10 + d) as u64) == Some(
            (acc * 10 + d) as u64,
        ));
    } else {
        let s2 = s + seq![digit_char(d)];
        assert(s2[0] == s[0]);
        match char_digit(s[0]) {
            Some(d0) => {
                assert(!(acc > (u64::MAX - d0) / 10));
                assert(s2.drop_first() =~= s.drop_first() + seq![digit_char(d)]);
                lemma_parse_rec_append(s.drop_first(), d, (acc * 10 + d0) as u64, v);
            },
            None => {
                assert(false);
            },
        }
    }
}

/// Round trip: parsing the rendered form of a transaction id yields the id
/// back. Since parsing is a function, rendering is injective, and comparing
/// version file names by their parsed values agrees with comparing the ids
/// themselves.
pub proof fn lemma_render_parse_round_trip(n: u64)
    ensures
        spec_parse(spec_render(n)) == Some(n),
    decreases n,
{
    lemma_render_digits(n);
    if n < 10 {
        let s = spec_render(n);
        assert(s[0] == digit_char(n));
        assert(char_digit(digit_char(n)) == Some(n));
        assert(s.drop_first() =~= Seq::<char>::empty());
        assert(spec_parse_rec(s, 0) == Some(n)) by {
            assert(!(0u64 > (u64::MAX - n) / 10));
            assert((0 * 10 + n) as u64 == n);
            assert(spec_parse_rec(s.drop_first(), n) == Some(n));
        }
    } else {
        lemma_render_parse_round_trip(n / 10);
        let q = n / 10;
        let d = n % 10;
        assert(q <= (u64::MAX - d) / 10) by (nonlinear_arith)
            requires
                q == n / 10,
                d == n % 10,
                n >= 10,
        ;
        lemma_parse_rec_append(spec_render(q), d, 0, q);
        assert(q * 10 + d == n) by (nonlinear_arith)
            requires
                q == n / 10,
                d == n % 10,
        ;
        assert(spec_render(n) == spec_render(q) + seq![digit_char(d)]);
    }
}

/// Version file names order the same way their transaction ids do: names of
/// distinct ids are distinct, and the parse order is the id order.
pub proof fn lemma_render_injective(a: u64, b: u64)
    requires
        spec_render(a) == spec_render(b),
    ensures
        a == b,
{
    lemma_render_parse_round_trip(a);
    lemma_render_parse_round_trip(b);
}

} // verus!
