use vstd::prelude::*;

verus! {

/// ASCII whitespace: space, tab, line feed, vertical tab, form feed,
/// carriage return.
pub open spec fn is_ws(b: u8) -> bool {
    b == 32 || (9 <= b <= 13)
}

/// The UTF-8 encodings, three bytes long, of the Unicode whitespace
/// characters U+1680, U+2000 to U+200A, U+2028, U+2029, U+202F, U+205F and
/// U+3000.
pub open spec fn is_ws3(a: u8, b: u8, c: u8) -> bool {
    ||| a == 0xE1 && b == 0x9A && c == 0x80
    ||| a == 0xE2 && b == 0x80 && ((0x80 <= c <= 0x8A) || c == 0xA8 || c == 0xA9 || c == 0xAF)
    ||| a == 0xE2 && b == 0x81 && c == 0x9F
    ||| a == 0xE3 && b == 0x80 && c == 0x80
}

/// Length in bytes of the whitespace character that `s` starts with, 0 if
/// it starts with none. Whitespace is what Unicode calls White_Space: the
/// ASCII whitespace bytes, U+0085 and U+00A0 (two bytes in UTF-8), and the
/// characters of `is_ws3` (three bytes).
pub open spec fn ws_len(s: Seq<u8>) -> nat {
    if s.len() >= 1 && is_ws(s[0]) {
        1
    } else if s.len() >= 2 && s[0] == 0xC2 && (s[1] == 0x85 || s[1] == 0xA0) {
        2
    } else if s.len() >= 3 && is_ws3(s[0], s[1], s[2]) {
        3
    } else {
        0
    }
}

/// Length of the run of bytes that `s` starts with before its first
/// whitespace character.
pub open spec fn token_len(s: Seq<u8>) -> nat
    decreases s.len(),
{
    if s.len() == 0 || ws_len(s) > 0 {
        0
    } else {
        1 + token_len(s.drop_first())
    }
}

/// The whitespace-separated words of `s`, in order.
pub open spec fn tokens_of(s: Seq<u8>) -> Seq<Seq<u8>>
    decreases s.len(),
{
    if s.len() == 0 {
        Seq::empty()
    } else if ws_len(s) > 0 {
        tokens_of(s.skip(ws_len(s) as int))
    } else {
        let n = token_len(s);
        proof {
            lemma_token_len_bound(s);
        }
        seq![s.take(n as int)] + tokens_of(s.skip(n as int))
    }
}

/// A byte of a plain word: ASCII and not whitespace.
pub open spec fn is_word_byte(b: u8) -> bool {
    b < 128 && !is_ws(b)
}

/// A word of plain bytes: at least one, none of them whitespace or beyond
/// ASCII.
pub open spec fn is_word(t: Seq<u8>) -> bool {
    t.len() > 0 && forall|i: int| 0 <= i < t.len() ==> is_word_byte(#[trigger] t[i])
}

/// The first token ends at whitespace or at the end of the text, and it is
/// not empty unless the text is empty or starts with whitespace.
pub proof fn lemma_token_len_bound(s: Seq<u8>)
    ensures
        token_len(s) <= s.len(),
        token_len(s) < s.len() ==> ws_len(s.skip(token_len(s) as int)) > 0,
        s.len() > 0 && ws_len(s) == 0 ==> token_len(s) > 0,
    decreases s.len(),
{
    if s.len() > 0 && ws_len(s) == 0 {
        lemma_token_len_bound(s.drop_first());
        let n = token_len(s.drop_first()) as int;
        if n < s.len() - 1 {
            assert(s.skip(n + 1) == s.drop_first().skip(n));
        }
    } else if s.len() > 0 {
        assert(s.skip(0) == s);
    }
}

/// Whitespace at the front of `x + y` is read from `x` alone when `x` holds an
/// ASCII whitespace byte at or after the front.
proof fn lemma_ws_len_concat(x: Seq<u8>, y: Seq<u8>, w: int)
    requires
        0 <= w < x.len(),
        is_ws(x[w]),
    ensures
        ws_len(x + y) == ws_len(x),
{
    let s = x + y;
    assert(s[0] == x[0]);
    if w >= 1 {
        assert(s[1] == x[1]);
    }
    if w >= 2 {
        assert(s[2] == x[2]);
    }
}

/// The run at the front of `x + y` ends inside `x` when `x` holds ASCII
/// whitespace.
proof fn lemma_token_len_concat(x: Seq<u8>, y: Seq<u8>, w: int)
    requires
        0 <= w < x.len(),
        is_ws(x[w]),
    ensures
        token_len(x + y) == token_len(x),
    decreases x.len(),
{
    lemma_ws_len_concat(x, y, w);
    if ws_len(x) == 0 {
        assert(w > 0);
        assert((x + y).drop_first() == x.drop_first() + y);
        lemma_token_len_concat(x.drop_first(), y, w - 1);
    }
}

/// A plain word directly followed by ASCII whitespace is read back as that
/// word.
proof fn lemma_token_len_word(t: Seq<u8>, y: Seq<u8>)
    requires
        forall|i: int| 0 <= i < t.len() ==> is_word_byte(#[trigger] t[i]),
        y.len() > 0,
        is_ws(y[0]),
    ensures
        token_len(t + y) == t.len(),
    decreases t.len(),
{
    if t.len() > 0 {
        assert((t + y).drop_first() == t.drop_first() + y);
        assert(is_word_byte(t[0]));
        assert((t + y)[0] == t[0]);
        assert(ws_len(t + y) == 0);
        lemma_token_len_word(t.drop_first(), y);
    } else {
        assert(t + y == y);
    }
}

/// Splitting after ASCII whitespace splits the words.
pub proof fn lemma_tokens_of_concat(x: Seq<u8>, y: Seq<u8>)
    requires
        x.len() == 0 || is_ws(x.last()),
    ensures
        tokens_of(x + y) == tokens_of(x) + tokens_of(y),
    decreases x.len(),
{
    if x.len() == 0 {
        assert(x + y == y);
    } else {
        let w = x.len() - 1;
        lemma_ws_len_concat(x, y, w);
        let k = ws_len(x) as int;
        if k > 0 {
            assert((x + y).skip(k) == x.skip(k) + y);
            if k == x.len() {
                assert(x.skip(k).len() == 0);
                assert((x + y).skip(k) == y);
                assert(tokens_of(x) == tokens_of(x.skip(k)));
                assert(tokens_of(x.skip(k)) == Seq::<Seq<u8>>::empty());
                assert(tokens_of(x) + tokens_of(y) == tokens_of(y));
            } else {
                assert(x.skip(k).last() == x.last());
                lemma_tokens_of_concat(x.skip(k), y);
            }
            assert(tokens_of(x + y) == tokens_of((x + y).skip(k)));
        } else {
            lemma_token_len_concat(x, y, w);
            lemma_token_len_bound(x);
            let n = token_len(x) as int;
            if n > w {
                lemma_token_len_prefix(x, w);
                assert(x.skip(w)[0] == x[w]);
            }
            assert(n < x.len());
            assert((x + y).take(n) == x.take(n));
            assert((x + y).skip(n) == x.skip(n) + y);
            assert(x.skip(n).last() == x.last());
            lemma_tokens_of_concat(x.skip(n), y);
        }
    }
}

/// Every position before the end of the first token starts no whitespace.
proof fn lemma_token_len_prefix(s: Seq<u8>, i: int)
    requires
        0 <= i < token_len(s),
    ensures
        ws_len(s.skip(i)) == 0,
    decreases s.len(),
{
    lemma_token_len_bound(s);
    if i == 0 {
        assert(s.skip(0) == s);
    } else {
        assert(s.skip(i) == s.drop_first().skip(i - 1));
        lemma_token_len_prefix(s.drop_first(), i - 1);
    }
}

/// A plain word followed by one ASCII whitespace byte reads as just that word.
pub proof fn lemma_tokens_of_word(t: Seq<u8>, w: u8)
    requires
        is_word(t),
        is_ws(w),
    ensures
        tokens_of(t + seq![w]) == seq![t],
{
    let s = t + seq![w];
    lemma_token_len_word(t, seq![w]);
    assert(s[0] == t[0]);
    assert(is_word_byte(t[0]));
    assert(ws_len(s) == 0);
    assert(s.take(t.len() as int) == t);
    assert(s.skip(t.len() as int) == seq![w]);
    assert(ws_len(seq![w]) == 1);
    assert(seq![w].skip(1).len() == 0);
    assert(tokens_of(seq![w]) == tokens_of(seq![w].skip(1)));
}

/// Length of the whitespace character at `i`, as `ws_len` counts it.
fn ws_len_at(bytes: &[u8], i: usize) -> (k: usize)
    requires
        i <= bytes@.len(),
    ensures
        k == ws_len(bytes@.skip(i as int)),
{
    let ghost s = bytes@.skip(i as int);
    let rem = bytes.len() - i;
    if rem >= 1 {
        assert(s[0] == bytes@[i as int]);
    }
    if rem >= 2 {
        assert(s[1] == bytes@[i + 1]);
    }
    if rem >= 3 {
        assert(s[2] == bytes@[i + 2]);
    }
    if rem >= 1 && (bytes[i] == 32 || (9 <= bytes[i] && bytes[i] <= 13)) {
        1
    } else if rem >= 2 && bytes[i] == 0xC2 && (bytes[i + 1] == 0x85 || bytes[i + 1] == 0xA0) {
        2
    } else if rem >= 3 {
        let a = bytes[i];
        let b = bytes[i + 1];
        let c = bytes[i + 2];
        if (a == 0xE1 && b == 0x9A && c == 0x80) || (a == 0xE2 && b == 0x80 && ((0x80 <= c && c <= 0x8A) || c
            == 0xA8 || c == 0xA9 || c == 0xAF)) || (a == 0xE2 && b == 0x81 && c == 0x9F) || (a == 0xE3 && b
            == 0x80 && c == 0x80) {
            3
        } else {
            0
        }
    } else {
        0
    }
}

/// Finds the first word of `bytes` at or after `pos`: its start and end.
pub fn next_token(bytes: &[u8], pos: usize) -> (r: Option<(usize, usize)>)
    requires
        pos <= bytes@.len(),
    ensures
        match r {
            None => tokens_of(bytes@.skip(pos as int)).len() == 0,
            Some((a, b)) => {
                &&& pos <= a < b <= bytes@.len()
                &&& tokens_of(bytes@.skip(pos as int)) == seq![bytes@.subrange(a as int, b as int)] + tokens_of(
                    bytes@.skip(b as int),
                )
            },
        },
{
    let n = bytes.len();
    let mut i = pos;
    let mut k = ws_len_at(bytes, i);
    while i < n && k > 0
        invariant
            pos <= i <= n,
            n == bytes@.len(),
            k == ws_len(bytes@.skip(i as int)),
            tokens_of(bytes@.skip(pos as int)) == tokens_of(bytes@.skip(i as int)),
        decreases n - i,
    {
        assert(bytes@.skip(i as int).skip(k as int) == bytes@.skip(i + k));
        i = i + k;
        k = ws_len_at(bytes, i);
    }
    if i == n {
        assert(bytes@.skip(i as int).len() == 0);
        return None;
    }
    let ghost s = bytes@.skip(i as int);
    let mut j = i;
    while j < n && ws_len_at(bytes, j) == 0
        invariant
            i <= j <= n,
            n == bytes@.len(),
            token_len(s) == (j - i) + token_len(bytes@.skip(j as int)),
            s == bytes@.skip(i as int),
        decreases n - j,
    {
        assert(bytes@.skip(j as int).drop_first() == bytes@.skip(j + 1));
        j = j + 1;
    }
    assert(token_len(bytes@.skip(j as int)) == 0);
    proof {
        lemma_token_len_bound(s);
    }
    assert(j > i);
    assert(s.take(j - i) == bytes@.subrange(i as int, j as int));
    assert(s.skip(j - i) == bytes@.skip(j as int));
    Some((i, j))
}

} // verus!
