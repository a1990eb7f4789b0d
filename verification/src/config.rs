//! Reading the bot's settings out of the text of its environment variables.

use vstd::prelude::*;
use crate::scaled_decimals::{
    first_index, lemma_first_index_unique, parse_u128,
    parse_u128_spec, all_digits, decimal_value, lemma_digit_text_parses,
};

verus! {

/// The pieces of `s` between occurrences of `sep`, as `str::split` yields them:
/// `n` separators give `n + 1` pieces, empty ones included.
pub open spec fn split_on(s: Seq<char>, sep: char) -> Seq<Seq<char>>
    decreases s.len(),
{
    let i = first_index(s, sep);
    if 0 <= i < s.len() {
        seq![s.take(i)] + split_on(s.skip(i + 1), sep)
    } else {
        seq![s]
    }
}

/// The `k`-th comma-separated piece of the pairs setting, or empty text where there is none.
pub open spec fn pair_at(setting: Seq<char>, k: int) -> Seq<char> {
    let pieces = split_on(setting, ',');
    if 0 <= k < pieces.len() {
        pieces[k]
    } else {
        Seq::empty()
    }
}

/// The piece of `s` that starts at char `start`, and where the next piece starts.
fn segment_from(s: &str, start: usize, sep: char) -> (r: (String, Option<usize>))
    requires
        start <= s@.len(),
    ensures
        split_on(s@.skip(start as int), sep) == seq![r.0@] + match r.1 {
            Some(j) => split_on(s@.skip(j as int), sep),
            None => Seq::<Seq<char>>::empty(),
        },
        r.1 matches Some(j) ==> start < j <= s@.len(),
{
    let n = s.unicode_len();
    let mut j: usize = start;
    while j < n && s.get_char(j) != sep
        invariant
            start <= j <= n,
            n == s@.len(),
            forall|k: int| start <= k < j ==> s@[k] != sep,
        decreases n - j,
    {
        j = j + 1;
    }
    let ghost t = s@.skip(start as int);
    proof {
        assert forall|k: int| 0 <= k < j - start implies t[k] != sep by {
            assert(t[k] == s@[k + start]);
        }
        lemma_first_index_unique(t, sep, j - start);
    }
    let piece = s.substring_char(start, j).to_owned();
    assert(piece@ =~= t.take(j - start));
    if j < n {
        assert(t.skip(j - start + 1) =~= s@.skip(j + 1));
        (piece, Some(j + 1))
    } else {
        assert(t.take(j - start) =~= t);
        assert(seq![piece@] + Seq::<Seq<char>>::empty() =~= seq![piece@]);
        (piece, None)
    }
}

/// The three trading pairs named by the pairs setting (such as `"BTCUSDT,ETHBTC,ETHUSDT"`):
/// its first three comma-separated pieces, empty where the setting has fewer.
pub fn get_pairs_for_triangle_arbitrage(exchange_pairs: &str) -> (pairs: [String; 3])
    ensures
        forall|k: int| 0 <= k < 3 ==> (#[trigger] pairs@[k])@ == pair_at(exchange_pairs@, k),
{
    let ghost s = exchange_pairs@;
    assert(s.skip(0) =~= s);
    let (first, next_a) = segment_from(exchange_pairs, 0, ',');
    let (second, next_b) = match next_a {
        Some(j) => segment_from(exchange_pairs, j, ','),
        None => (String::new(), None),
    };
    let (third, _next_c) = match next_b {
        Some(j) => segment_from(exchange_pairs, j, ','),
        None => (String::new(), None),
    };
    let pairs = [first, second, third];
    proof {
        let pieces = split_on(s, ',');
        assert(pieces[0] == first@);
        match next_a {
            Some(ja) => {
                let tail_a = split_on(s.skip(ja as int), ',');
                assert(pieces =~= seq![first@] + tail_a);
                assert(tail_a[0] == second@);
                match next_b {
                    Some(jb) => {
                        let tail_b = split_on(s.skip(jb as int), ',');
                        assert(tail_a =~= seq![second@] + tail_b);
                        assert(tail_b[0] == third@);
                        assert(pieces[2] == third@);
                    },
                    None => {
                        assert(tail_a =~= seq![second@]);
                        assert(pieces.len() == 2);
                    },
                }
            },
            None => {
                assert(pieces =~= seq![first@]);
            },
        }
        assert(pairs@[0] == first && pairs@[1] == second && pairs@[2] == third);
    }
    pairs
}

/// Whether the fee setting can be read: `u128::from_str` accepts it.
pub fn fee_is_readable(fees: &str) -> (r: bool)
    ensures
        r == parse_u128_spec(fees@) is Some,
        fees@.len() > 0 && all_digits(fees@) && decimal_value(fees@) <= u128::MAX ==> r,
{
    proof {
        if fees@.len() > 0 && all_digits(fees@) && decimal_value(fees@) <= u128::MAX {
            lemma_digit_text_parses(fees@);
        }
    }
    parse_u128(fees).is_some()
}

/// The fee setting read as a whole number of billionths, as `u128::from_str` reads it.
/// The setting must be readable (`fee_is_readable`).
pub fn get_fee(fees: &str) -> (r: u128)
    requires
        parse_u128_spec(fees@) is Some,
    ensures
        parse_u128_spec(fees@) == Some(r as nat),
        fees@.len() > 0 && all_digits(fees@) ==> r == decimal_value(fees@),
{
    proof {
        if fees@.len() > 0 && all_digits(fees@) && decimal_value(fees@) <= u128::MAX {
            lemma_digit_text_parses(fees@);
        }
    }
    match parse_u128(fees) {
        Some(v) => v,
        None => 0,
    }
}

/// Text without a `,`.
pub open spec fn has_no_comma(s: Seq<char>) -> bool {
    forall|k: int| 0 <= k < s.len() ==> s[k] != ','
}

proof fn lemma_split_piece(head: Seq<char>, rest: Seq<char>)
    requires
        has_no_comma(head),
    ensures
        split_on(head + seq![','] + rest, ',') =~= seq![head] + split_on(rest, ','),
{
    let s = head + seq![','] + rest;
    assert forall|k: int| 0 <= k < head.len() implies s[k] != ',' by {
        assert(s[k] == head[k]);
    }
    assert(s[head.len() as int] == ',');
    lemma_first_index_unique(s, ',', head.len() as int);
    assert(s.take(head.len() as int) =~= head);
    assert(s.skip(head.len() as int + 1) =~= rest);
}

/// A setting `a,b,c`, or `a,b,c,` followed by anything, names the pairs `a`, `b` and `c`
/// (none of them holding a comma); a setting `a,b` names `a`, `b` and an empty third.
pub proof fn lemma_pairs_of_setting(a: Seq<char>, b: Seq<char>, c: Seq<char>, tail: Seq<char>)
    requires
        has_no_comma(a),
        has_no_comma(b),
        has_no_comma(c),
    ensures
        pair_at(a + seq![','] + b + seq![','] + c, 0) == a,
        pair_at(a + seq![','] + b + seq![','] + c, 1) == b,
        pair_at(a + seq![','] + b + seq![','] + c, 2) == c,
        pair_at(a + seq![','] + b + seq![','] + c + seq![','] + tail, 0) == a,
        pair_at(a + seq![','] + b + seq![','] + c + seq![','] + tail, 1) == b,
        pair_at(a + seq![','] + b + seq![','] + c + seq![','] + tail, 2) == c,
        pair_at(a + seq![','] + b, 0) == a,
        pair_at(a + seq![','] + b, 1) == b,
        pair_at(a + seq![','] + b, 2) == Seq::<char>::empty(),
{
    lemma_first_index_unique(c, ',', c.len() as int);
    assert(c.take(c.len() as int) =~= c);
    assert(split_on(c, ',') =~= seq![c]);
    lemma_first_index_unique(b, ',', b.len() as int);
    assert(b.take(b.len() as int) =~= b);
    assert(split_on(b, ',') =~= seq![b]);

    let bc = b + seq![','] + c;
    lemma_split_piece(b, c);
    assert(a + seq![','] + b + seq![','] + c =~= a + seq![','] + bc);
    lemma_split_piece(a, bc);

    let ctail = c + seq![','] + tail;
    lemma_split_piece(c, tail);
    let bctail = b + seq![','] + ctail;
    lemma_split_piece(b, ctail);
    assert(a + seq![','] + b + seq![','] + c + seq![','] + tail =~= a + seq![','] + bctail);
    lemma_split_piece(a, bctail);

    lemma_split_piece(a, b);
}

} // verus!
