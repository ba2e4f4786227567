//! The text form of a graph: words separated by white space, among them
//! `DIMENSION:` before the node count and `EDGE_WEIGHT_SECTION` before the
//! weights, row by row.

use crate::graph::{is_square, rows_of, Graph, MatrixGraph};
use vstd::prelude::*;

verus! {

/// Why a text describes no graph.
#[derive(Clone, Copy, Debug, PartialEq, Eq, Structural)]
pub enum ParseError {
    /// The word `DIMENSION:` is missing, or no positive node count follows
    /// it.
    Dimension,
    /// The word `EDGE_WEIGHT_SECTION` is missing.
    WeightSection,
    /// A weight between two different nodes is missing or is no number.
    Weight,
}

/// The character is white space: one of the code points that Unicode
/// gives the property `White_Space`.
pub open spec fn is_space(c: char) -> bool {
    let v = c as u32;
    ||| 0x09 <= v <= 0x0D
    ||| v == 0x20
    ||| v == 0x85
    ||| v == 0xA0
    ||| v == 0x1680
    ||| 0x2000 <= v <= 0x200A
    ||| v == 0x2028
    ||| v == 0x2029
    ||| v == 0x202F
    ||| v == 0x205F
    ||| v == 0x3000
}

/// The character is a decimal digit.
pub open spec fn is_digit(c: char) -> bool {
    48 <= (c as u32) <= 57
}

/// The characters `low..high` of `s` are a word: no white space in it, and none
/// of its neighbours belongs to a word.
pub open spec fn is_word(s: Seq<char>, low: int, high: int) -> bool {
    &&& 0 <= low < high <= s.len()
    &&& (low == 0 || is_space(s[low - 1]))
    &&& (high == s.len() || is_space(s[high]))
    &&& forall|p: int| low <= p < high ==> !is_space(#[trigger] s[p])
}

/// Position `p` lies in one of the spans.
pub open spec fn covered(spans: Seq<(usize, usize)>, p: int) -> bool {
    exists|k: int| 0 <= k < spans.len() && (#[trigger] spans[k]).0 <= p < spans[k].1
}

/// The spans are the words among the first `upto` characters of `s`, in order.
pub open spec fn is_split_upto(s: Seq<char>, spans: Seq<(usize, usize)>, upto: int) -> bool {
    &&& forall|k: int| 0 <= k < spans.len() ==> is_word(s, (#[trigger] spans[k]).0 as int, spans[k].1 as int) && spans[k].1 <= upto
    &&& forall|k: int, m: int| 0 <= k < m < spans.len() ==> (#[trigger] spans[k]).1 < (#[trigger] spans[m]).0
    &&& forall|p: int| 0 <= p < upto && !is_space(#[trigger] s[p]) ==> covered(spans, p)
}

/// `words` are the words of `s`, in order.
pub open spec fn is_words(s: Seq<char>, words: Seq<Seq<char>>) -> bool {
    exists|spans: Seq<(usize, usize)>| #[trigger]
        is_split_upto(s, spans, s.len() as int) && words.len() == spans.len() && forall|k: int|
            0 <= k < spans.len() ==> #[trigger] words[k] == s.subrange(spans[k].0 as int, spans[k].1 as int)
}

/// The words, each as a sequence of characters.
pub open spec fn texts_of(words: Seq<Vec<char>>) -> Seq<Seq<char>> {
    Seq::new(words.len(), |i: int| words[i]@)
}

/// Every character is a decimal digit.
pub open spec fn all_digits(t: Seq<char>) -> bool {
    forall|i: int| 0 <= i < t.len() ==> is_digit(#[trigger] t[i])
}

/// The number that the digits write.
pub open spec fn decimal(t: Seq<char>) -> int
    decreases t.len(),
{
    if t.len() == 0 {
        0
    } else {
        decimal(t.drop_last()) * 10 + (t.last() as u32 - 48)
    }
}

/// The number that `t` writes, where `t` is one digit or more.
pub open spec fn digits_value(t: Seq<char>) -> Option<int> {
    if t.len() > 0 && all_digits(t) {
        Some(decimal(t))
    } else {
        None
    }
}

/// `t` without a leading plus sign.
pub open spec fn without_plus(t: Seq<char>) -> Seq<char> {
    if t.len() > 0 && t[0] == '+' {
        t.subrange(1, t.len() as int)
    } else {
        t
    }
}

/// The node count that `t` writes: digits, after a plus sign or none, of a
/// number that the machine can hold.
pub open spec fn unsigned_value(t: Seq<char>) -> Option<usize> {
    match digits_value(without_plus(t)) {
        Some(v) => if v <= usize::MAX {
            Some(v as usize)
        } else {
            None
        },
        None => None,
    }
}

/// The weight that `t` writes: digits, after a sign or none, of a number
/// that the machine can hold.
pub open spec fn signed_value(t: Seq<char>) -> Option<isize> {
    if t.len() > 0 && t[0] == '-' {
        match digits_value(t.subrange(1, t.len() as int)) {
            Some(v) => if -v >= isize::MIN {
                Some((-v) as isize)
            } else {
                None
            },
            None => None,
        }
    } else {
        match digits_value(without_plus(t)) {
            Some(v) => if v <= isize::MAX {
                Some(v as isize)
            } else {
                None
            },
            None => None,
        }
    }
}

/// The word `DIMENSION:`.
pub open spec fn dimension_key() -> Seq<char> {
    seq!['D', 'I', 'M', 'E', 'N', 'S', 'I', 'O', 'N', ':']
}

/// The word `EDGE_WEIGHT_SECTION`.
pub open spec fn weights_key() -> Seq<char> {
    seq!['E', 'D', 'G', 'E', '_', 'W', 'E', 'I', 'G', 'H', 'T', '_', 'S', 'E', 'C', 'T', 'I', 'O', 'N']
}

/// None of the words is `key`.
pub open spec fn absent(words: Seq<Seq<char>>, key: Seq<char>) -> bool {
    forall|j: int| 0 <= j < words.len() ==> #[trigger] words[j] != key
}

/// Word `k` is the first that is `key`.
pub open spec fn first_at(words: Seq<Seq<char>>, key: Seq<char>, k: int) -> bool {
    &&& 0 <= k < words.len()
    &&& words[k] == key
    &&& forall|j: int| 0 <= j < k ==> #[trigger] words[j] != key
}

/// The position of the first word that is `key`.
pub open spec fn position_of(words: Seq<Seq<char>>, key: Seq<char>) -> Option<int> {
    if absent(words, key) {
        None
    } else {
        Some(choose|k: int| first_at(words, key, k))
    }
}

/// The node count of the text: the positive number after the first
/// `DIMENSION:`.
pub open spec fn dimension_of(words: Seq<Seq<char>>) -> Option<usize> {
    match position_of(words, dimension_key()) {
        Some(k) => if k + 1 < words.len() {
            match unsigned_value(words[k + 1]) {
                Some(dim) => if dim > 0 {
                    Some(dim)
                } else {
                    None
                },
                None => None,
            }
        } else {
            None
        },
        None => None,
    }
}

/// The weight from node `i` to node `j`, for weights that start at word
/// `start`.
pub open spec fn weight_at(words: Seq<Seq<char>>, start: int, dim: int, i: int, j: int) -> Option<isize> {
    let at = start + i * dim + j;
    if at < words.len() {
        signed_value(words[at])
    } else {
        None
    }
}

/// The text holds a weight for every two different nodes.
pub open spec fn has_weights(words: Seq<Seq<char>>, start: int, dim: int) -> bool {
    forall|i: int, j: int| 0 <= i < dim && 0 <= j < dim && i != j ==> (#[trigger] weight_at(words, start, dim, i, j)).is_some()
}

/// The weights of the text, row by row; from a node to itself the weight is
/// zero, whatever the text holds there.
pub open spec fn weights_of(words: Seq<Seq<char>>, start: int, dim: int) -> Seq<Seq<isize>> {
    Seq::new(
        dim as nat,
        |i: int|
            Seq::new(
                dim as nat,
                |j: int|
                    if i == j {
                        0isize
                    } else {
                        weight_at(words, start, dim, i, j).unwrap()
                    },
            ),
    )
}

/// The weights that the words describe, or why they describe none.
pub open spec fn text_result(words: Seq<Seq<char>>) -> Result<Seq<Seq<isize>>, ParseError> {
    match dimension_of(words) {
        None => Err(ParseError::Dimension),
        Some(dim) => match position_of(words, weights_key()) {
            None => Err(ParseError::WeightSection),
            Some(k) => if has_weights(words, k + 1, dim as int) {
                Ok(weights_of(words, k + 1, dim as int))
            } else {
                Err(ParseError::Weight)
            },
        },
    }
}

/// The first position of a key is the only one that is first.
pub proof fn lemma_first_at(words: Seq<Seq<char>>, key: Seq<char>, k: int)
    requires
        first_at(words, key, k),
    ensures
        position_of(words, key) == Some(k),
{
    assert(!absent(words, key));
    let other = choose|m: int| first_at(words, key, m);
    if other < k {
        assert(words[other] != key);
    } else if k < other {
        assert(words[k] != key);
    }
}

/// Digits write a number that is not negative, and no prefix writes a
/// greater one.
pub proof fn lemma_decimal_grows(t: Seq<char>, k: int)
    requires
        all_digits(t),
        0 <= k <= t.len(),
    ensures
        0 <= decimal(t.subrange(0, k)) <= decimal(t),
    decreases t.len() - k,
{
    if k == t.len() {
        assert(t.subrange(0, k) =~= t);
        lemma_decimal_not_negative(t);
    } else {
        lemma_decimal_grows(t.drop_last(), k);
        assert(t.drop_last().subrange(0, k) =~= t.subrange(0, k));
        assert(is_digit(t[t.len() - 1]));
    }
}

/// Digits write a number that is not negative.
pub proof fn lemma_decimal_not_negative(t: Seq<char>)
    requires
        all_digits(t),
    ensures
        0 <= decimal(t),
    decreases t.len(),
{
    if t.len() > 0 {
        lemma_decimal_not_negative(t.drop_last());
        assert(is_digit(t[t.len() - 1]));
    }
}

/// Decides whether the character is white space.
pub fn is_space_char(c: char) -> (space: bool)
    ensures
        space == is_space(c),
{
    let v: u32 = c as u32;
    (0x09 <= v && v <= 0x0D) || v == 0x20 || v == 0x85 || v == 0xA0 || v == 0x1680 || (0x2000 <= v
        && v <= 0x200A) || v == 0x2028 || v == 0x2029 || v == 0x202F || v == 0x205F || v == 0x3000
}

/// The characters `low..high` of `input`.
fn slice_of(input: &Vec<char>, low: usize, high: usize) -> (word: Vec<char>)
    requires
        low <= high <= input@.len(),
    ensures
        word@ == input@.subrange(low as int, high as int),
{
    let mut word: Vec<char> = Vec::with_capacity(high - low);
    let mut i: usize = low;
    while i < high
        invariant
            low <= i <= high <= input@.len(),
            word@ == input@.subrange(low as int, i as int),
        decreases high - i,
    {
        word.push(input[i]);
        i += 1;
        assert(word@ =~= input@.subrange(low as int, i as int));
    }
    word
}

/// Where the words of `input` begin and end.
pub fn word_spans(input: &Vec<char>) -> (spans: Vec<(usize, usize)>)
    ensures
        is_split_upto(input@, spans@, input@.len() as int),
{
    let n = input.len();
    let mut spans: Vec<(usize, usize)> = Vec::new();
    let mut pos: usize = 0;
    while pos < n
        invariant
            pos <= n,
            n == input@.len(),
            is_split_upto(input@, spans@, pos as int),
            pos == 0 || pos == n || is_space(input@[pos - 1]) || is_space(input@[pos as int]),
        decreases n - pos,
    {
        if is_space_char(input[pos]) {
            pos += 1;
        } else {
            let start = pos;
            pos += 1;
            while pos < n && !is_space_char(input[pos])
                invariant
                    start < pos <= n,
                    n == input@.len(),
                    forall|p: int| start <= p < pos ==> !is_space(#[trigger] input@[p]),
                decreases n - pos,
            {
                pos += 1;
            }
            let ghost before = spans@;
            spans.push((start, pos));
            proof {
                let after = spans@;
                let last = before.len() as int;
                assert(is_word(input@, start as int, pos as int));
                assert forall|k: int| 0 <= k < after.len() implies is_word(input@, (#[trigger] after[k]).0 as int, after[k].1 as int) && after[k].1 <= pos by {
                    if k < last {
                        assert(after[k] == before[k]);
                    }
                }
                assert forall|k: int, m: int| 0 <= k < m < after.len() implies (#[trigger] after[k]).1 < (#[trigger] after[m]).0 by {
                    assert(after[k] == before[k]);
                    if m < last {
                        assert(after[m] == before[m]);
                    } else {
                        assert(is_word(input@, before[k].0 as int, before[k].1 as int));
                        assert(before[k].1 <= start);
                    }
                }
                assert forall|p: int| 0 <= p < pos && !is_space(#[trigger] input@[p]) implies covered(after, p) by {
                    if p < start {
                        assert(covered(before, p));
                        let k = choose|k: int| 0 <= k < before.len() && (#[trigger] before[k]).0 <= p < before[k].1;
                        assert(after[k] == before[k]);
                    } else {
                        assert(after[last].0 <= p < after[last].1);
                    }
                }
            }
        }
    }
    spans
}

/// The words of `input`, in order: the longest stretches without white
/// space.
pub fn tokenize(input: &Vec<char>) -> (words: Vec<Vec<char>>)
    ensures
        is_words(input@, texts_of(words@)),
{
    let spans = word_spans(input);
    let mut words: Vec<Vec<char>> = Vec::with_capacity(spans.len());
    let mut k: usize = 0;
    while k < spans.len()
        invariant
            k <= spans@.len(),
            is_split_upto(input@, spans@, input@.len() as int),
            words@.len() == k,
            forall|m: int| 0 <= m < k ==> (#[trigger] words@[m])@ == input@.subrange(spans@[m].0 as int, spans@[m].1 as int),
        decreases spans@.len() - k,
    {
        let span = spans[k];
        assert(is_word(input@, spans@[k as int].0 as int, spans@[k as int].1 as int));
        words.push(slice_of(input, span.0, span.1));
        k += 1;
    }
    proof {
        let texts = texts_of(words@);
        assert forall|m: int| 0 <= m < spans@.len() implies #[trigger] texts[m] == input@.subrange(spans@[m].0 as int, spans@[m].1 as int) by {
            assert(words@[m]@ == input@.subrange(spans@[m].0 as int, spans@[m].1 as int));
        }
        assert(is_split_upto(input@, spans@, input@.len() as int) && texts.len() == spans@.len());
    }
    words
}

/// The number that the characters of `word` from `from` on write, where they are
/// digits, at least one, of a number of at most `limit`.
fn parse_digits(word: &Vec<char>, from: usize, limit: u128) -> (value: Option<u128>)
    requires
        from <= word@.len(),
        limit <= 0x1_0000_0000_0000_0000,
    ensures
        match value {
            Some(v) => digits_value(word@.subrange(from as int, word@.len() as int)) == Some(v as int) && v <= limit,
            None => match digits_value(word@.subrange(from as int, word@.len() as int)) {
                Some(v) => v > limit,
                None => true,
            },
        },
{
    let n = word.len();
    let ghost digits = word@.subrange(from as int, n as int);
    if from == n {
        return None;
    }
    let mut total: u128 = 0;
    let mut i: usize = from;
    assert(digits.subrange(0, 0) =~= Seq::<char>::empty());
    while i < n
        invariant
            from <= i <= n,
            n == word@.len(),
            limit <= 0x1_0000_0000_0000_0000,
            digits == word@.subrange(from as int, n as int),
            all_digits(digits.subrange(0, i - from)),
            total == decimal(digits.subrange(0, i - from)),
            total <= limit,
        decreases n - i,
    {
        let c: u32 = word[i] as u32;
        if c < 48 || c > 57 {
            assert(!is_digit(digits[i - from]));
            return None;
        }
        let ghost prefix = digits.subrange(0, i - from);
        let ghost longer = digits.subrange(0, i + 1 - from);
        proof {
            assert(longer.drop_last() =~= prefix);
            assert(longer.last() as u32 == c);
            assert forall|k: int| 0 <= k < longer.len() implies is_digit(#[trigger] longer[k]) by {
                if k < prefix.len() {
                    assert(longer[k] == prefix[k]);
                }
            }
        }
        total = total * 10 + (c - 48) as u128;
        if total > limit {
            proof {
                if all_digits(digits) {
                    lemma_decimal_grows(digits, i + 1 - from);
                }
            }
            return None;
        }
        i += 1;
    }
    assert(digits.subrange(0, n - from) =~= digits);
    Some(total)
}

/// Reads a node count: digits, after a plus sign or none.
pub fn parse_count(word: &Vec<char>) -> (count: Option<usize>)
    ensures
        count == unsigned_value(word@),
{
    let from: usize = if word.len() > 0 && word[0] == '+' { 1 } else { 0 };
    assert(word@.subrange(from as int, word@.len() as int) =~= without_plus(word@));
    match parse_digits(word, from, usize::MAX as u128) {
        Some(v) => Some(v as usize),
        None => None,
    }
}

/// Reads a weight: digits, after a sign or none.
pub fn parse_weight(word: &Vec<char>) -> (weight: Option<isize>)
    ensures
        weight == signed_value(word@),
{
    if word.len() > 0 && word[0] == '-' {
        match parse_digits(word, 1, isize::MAX as u128 + 1) {
            Some(v) => {
                if v == 0 {
                    Some(0)
                } else {
                    let below: isize = (v - 1) as isize;
                    Some(-below - 1)
                }
            },
            None => None,
        }
    } else {
        let from: usize = if word.len() > 0 && word[0] == '+' { 1 } else { 0 };
        assert(word@.subrange(from as int, word@.len() as int) =~= without_plus(word@));
        match parse_digits(word, from, isize::MAX as u128) {
            Some(v) => Some(v as isize),
            None => None,
        }
    }
}

/// Decides whether two words are the same.
fn same_word(word: &Vec<char>, key: &Vec<char>) -> (same: bool)
    ensures
        same == (word@ == key@),
{
    if word.len() != key.len() {
        return false;
    }
    let mut i: usize = 0;
    while i < word.len()
        invariant
            i <= word@.len(),
            word@.len() == key@.len(),
            forall|k: int| 0 <= k < i ==> #[trigger] word@[k] == key@[k],
        decreases word@.len() - i,
    {
        if word[i] != key[i] {
            return false;
        }
        i += 1;
    }
    assert(word@ =~= key@);
    true
}

/// The position of the first word that is `key`.
fn find_word(words: &Vec<Vec<char>>, key: &Vec<char>) -> (found: Option<usize>)
    ensures
        match found {
            Some(k) => position_of(texts_of(words@), key@) == Some(k as int) && k < words@.len(),
            None => position_of(texts_of(words@), key@).is_none(),
        },
{
    let mut k: usize = 0;
    while k < words.len()
        invariant
            k <= words@.len(),
            forall|j: int| 0 <= j < k ==> #[trigger] texts_of(words@)[j] != key@,
        decreases words@.len() - k,
    {
        if same_word(&words[k], key) {
            proof {
                assert(texts_of(words@)[k as int] == key@);
                lemma_first_at(texts_of(words@), key@, k as int);
            }
            return Some(k);
        }
        assert(texts_of(words@)[k as int] != key@);
        k += 1;
    }
    assert(absent(texts_of(words@), key@));
    None
}

/// The word `DIMENSION:`.
fn dimension_word() -> (key: Vec<char>)
    ensures
        key@ == dimension_key(),
{
    let key: Vec<char> = vec!['D', 'I', 'M', 'E', 'N', 'S', 'I', 'O', 'N', ':'];
    assert(key@ =~= dimension_key());
    key
}

/// The word `EDGE_WEIGHT_SECTION`.
fn weights_word() -> (key: Vec<char>)
    ensures
        key@ == weights_key(),
{
    let key: Vec<char> = vec!['E', 'D', 'G', 'E', '_', 'W', 'E', 'I', 'G', 'H', 'T', '_', 'S', 'E', 'C', 'T', 'I', 'O', 'N'];
    assert(key@ =~= weights_key());
    key
}

/// The graph that the words describe: its node count follows the first
/// `DIMENSION:`, and its weights follow the first `EDGE_WEIGHT_SECTION`, row
/// by row. The weight from a node to itself is zero, whatever stands in its
/// place.
pub fn graph_from_words(words: &Vec<Vec<char>>) -> (result: Result<MatrixGraph, ParseError>)
    ensures
        match result {
            Ok(graph) => graph.well_formed() && text_result(texts_of(words@)) == Ok::<Seq<Seq<isize>>, ParseError>(graph.weights())
                && graph.node_count() == graph.weights().len(),
            Err(e) => text_result(texts_of(words@)) == Err::<Seq<Seq<isize>>, ParseError>(e),
        },
{
    let ghost texts = texts_of(words@);
    let dimension_at = find_word(words, &dimension_word());
    let dim: usize = match dimension_at {
        None => {
            return Err(ParseError::Dimension);
        },
        Some(k) => {
            if k >= words.len() - 1 {
                return Err(ParseError::Dimension);
            }
            assert(texts[k + 1] == words@[k + 1]@);
            match parse_count(&words[k + 1]) {
                None => {
                    return Err(ParseError::Dimension);
                },
                Some(dim) => {
                    if dim == 0 {
                        return Err(ParseError::Dimension);
                    }
                    dim
                },
            }
        },
    };
    assert(dimension_of(texts) == Some(dim));
    let weights_at = find_word(words, &weights_word());
    let start: usize = match weights_at {
        None => {
            return Err(ParseError::WeightSection);
        },
        Some(k) => k + 1,
    };
    assert(position_of(texts, weights_key()) == Some(start - 1));
    let len = words.len();
    if dim >= 2 {
        assert((dim - 1) * dim <= 0xffff_ffff_ffff_ffff * 0xffff_ffff_ffff_ffff) by (nonlinear_arith)
            requires
                2 <= dim <= 0xffff_ffff_ffff_ffff,
        ;
        let last: u128 = start as u128 + (dim as u128 - 1) * (dim as u128) + (dim as u128 - 2);
        if last >= len as u128 {
            proof {
                assert(weight_at(texts, start as int, dim as int, dim - 1, dim - 2).is_none());
            }
            return Err(ParseError::Weight);
        }
    }
    let mut matrix: Vec<Vec<isize>> = Vec::with_capacity(dim);
    let mut i: usize = 0;
    while i < dim
        invariant
            i <= dim,
            dim >= 1,
            len == words@.len(),
            texts == texts_of(words@),
            dimension_of(texts) == Some(dim),
            position_of(texts, weights_key()) == Some(start - 1),
            dim >= 2 ==> start + (dim - 1) * dim + (dim - 2) < len,
            matrix@.len() == i,
            forall|r: int| 0 <= r < i ==> (#[trigger] matrix@[r])@.len() == dim,
            forall|r: int, c: int| 0 <= r < i && 0 <= c < dim && r != c ==> weight_at(texts, start as int, dim as int, r, c) == Some(#[trigger] matrix@[r]@[c]),
            forall|r: int| 0 <= r < i ==> (#[trigger] matrix@[r])@[r] == 0,
        decreases dim - i,
    {
        let mut row: Vec<isize> = Vec::with_capacity(dim);
        let mut j: usize = 0;
        while j < dim
            invariant
                i < dim,
                j <= dim,
                len == words@.len(),
                texts == texts_of(words@),
                dimension_of(texts) == Some(dim),
                position_of(texts, weights_key()) == Some(start - 1),
                dim >= 2 ==> start + (dim - 1) * dim + (dim - 2) < len,
                row@.len() == j,
                forall|c: int| 0 <= c < j && c != i ==> weight_at(texts, start as int, dim as int, i as int, c) == Some(#[trigger] row@[c]),
                i < j ==> row@[i as int] == 0,
            decreases dim - j,
        {
            if i == j {
                row.push(0);
            } else {
                assert(i * dim + j <= (dim - 1) * dim + (dim - 2)) by (nonlinear_arith)
                    requires
                        0 <= i < dim,
                        0 <= j < dim,
                        i != j,
                ;
                let at = start + i * dim + j;
                assert(texts[at as int] == words@[at as int]@);
                match parse_weight(&words[at]) {
                    Some(weight) => {
                        row.push(weight);
                    },
                    None => {
                        assert(weight_at(texts, start as int, dim as int, i as int, j as int).is_none());
                        return Err(ParseError::Weight);
                    },
                }
            }
            j += 1;
        }
        matrix.push(row);
        i += 1;
    }
    proof {
        assert forall|r: int, c: int| 0 <= r < dim && 0 <= c < dim && r != c implies (#[trigger] weight_at(texts, start as int, dim as int, r, c)).is_some() by {
            assert(weight_at(texts, start as int, dim as int, r, c) == Some(matrix@[r]@[c]));
        }
        assert(is_square(rows_of(matrix@), dim as nat)) by {
            assert forall|r: int| 0 <= r < dim implies (#[trigger] rows_of(matrix@)[r]).len() == dim by {
                assert(matrix@[r]@.len() == dim);
            }
        }
        let expected = weights_of(texts, start as int, dim as int);
        assert(rows_of(matrix@) =~= expected) by {
            assert forall|r: int| 0 <= r < dim implies #[trigger] rows_of(matrix@)[r] =~= expected[r] by {
                assert(matrix@[r]@.len() == dim);
                assert forall|c: int| 0 <= c < dim implies rows_of(matrix@)[r][c] == #[trigger] expected[r][c] by {
                    if r != c {
                        assert(weight_at(texts, start as int, dim as int, r, c) == Some(matrix@[r]@[c]));
                    } else {
                        assert(matrix@[r]@[r] == 0);
                    }
                }
            }
        }
    }
    let mut graph = MatrixGraph::new(dim);
    graph.set_adj_matrix(matrix);
    Ok(graph)
}

/// Reads a graph from the characters of its text form.
pub fn graph_from_text(input: &Vec<char>) -> (result: Result<MatrixGraph, ParseError>)
    ensures
        is_parsed(input@, result),
{
    let words = tokenize(input);
    let result = graph_from_words(&words);
    assert(is_words(input@, texts_of(words@)));
    result
}

/// `result` is what the text `input` is read as: for the words of the text,
/// the graph with the weights that they describe, or why they describe
/// none.
pub open spec fn is_parsed(input: Seq<char>, result: Result<MatrixGraph, ParseError>) -> bool {
    exists|words: Seq<Seq<char>>| #[trigger]
        is_words(input, words) && match result {
            Ok(graph) => graph.well_formed() && text_result(words) == Ok::<Seq<Seq<isize>>, ParseError>(graph.weights())
                && graph.node_count() == graph.weights().len(),
            Err(e) => text_result(words) == Err::<Seq<Seq<isize>>, ParseError>(e),
        }
}

/// The characters of `text`, in order.
pub fn chars_of(text: &str) -> (chars: Vec<char>)
    ensures
        chars@ == text@,
{
    let mut chars: Vec<char> = Vec::new();
    let mut rest = text.chars();
    for c in it: rest
        invariant
            chars@ == it.seq().take(it.index()),
    {
        chars.push(c);
    }
    chars
}

/// Reads a graph from its text form.
pub fn parse_graph(text: &str) -> (result: Result<MatrixGraph, ParseError>)
    ensures
        is_parsed(text@, result),
{
    let chars = chars_of(text);
    graph_from_text(&chars)
}

} // verus!
