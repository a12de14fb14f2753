//! Encoding of a tag value into one part of a partition key.
//!
//! A value is percent-encoded byte by byte: non-ASCII bytes, control bytes
//! and the bytes that the key format reserves are written as `%XX`. An
//! encoded value longer than [`PARTITION_KEY_MAX_PART_LEN`] bytes is cut
//! after whole grapheme clusters and marked with a trailing `#`.

use vstd::prelude::*;
use vstd::string::*;
use vstd::utf8::*;

verus! {

/// The most bytes that one rendered part of a partition key may hold.
pub const PARTITION_KEY_MAX_PART_LEN: usize = 200;

/// Joins the parts of a partition key.
pub const PARTITION_KEY_DELIMITER: char = '|';

/// Rendered for a tag that has no value in a row, or a column that the batch
/// does not have.
pub const PARTITION_KEY_VALUE_NULL: char = '!';

/// Rendered for a tag whose value is the empty string.
pub const PARTITION_KEY_VALUE_EMPTY: char = '^';

/// Ends a part that was cut short.
pub const PARTITION_KEY_PART_TRUNCATED: char = '#';

/// The bytes that are percent-encoded: control bytes, all bytes outside
/// ASCII, and `|`, `!`, `^`, `#` and `%`.
pub open spec fn is_encoded_byte(b: u8) -> bool {
    b < 0x20 || b >= 0x7f || b == 0x7c || b == 0x21 || b == 0x5e || b == 0x23 || b == 0x25
}

/// The upper-case hexadecimal digit of `n < 16`.
pub open spec fn hex_digit(n: u8) -> char {
    if n < 10 {
        ((n + 48) as u8) as char
    } else {
        ((n + 55) as u8) as char
    }
}

/// `%` followed by the two upper-case hexadecimal digits of `b`.
pub open spec fn percent_triplet(b: u8) -> Seq<char> {
    seq!['%', hex_digit(b / 16), hex_digit(b % 16)]
}

/// The encoding of one byte.
pub open spec fn encode_byte(b: u8) -> Seq<char> {
    if is_encoded_byte(b) {
        percent_triplet(b)
    } else {
        seq![b as char]
    }
}

/// The encoding of a byte sequence: each byte encoded in turn.
pub open spec fn encode_bytes(bs: Seq<u8>) -> Seq<char>
    decreases bs.len(),
{
    if bs.len() == 0 {
        seq![]
    } else {
        encode_bytes(bs.drop_last()) + encode_byte(bs.last())
    }
}

/// The percent-encoding of the UTF-8 bytes of `s`.
pub open spec fn percent_encoded(s: Seq<char>) -> Seq<char> {
    encode_bytes(encode_utf8(s))
}

/// The extended grapheme clusters of `s`, in order.
pub uninterp spec fn extended_graphemes(s: Seq<char>) -> Seq<Seq<char>>;

/// The encodings of the leading clusters of `gs`, taken while their total
/// length stays under `budget`.
pub open spec fn take_graphemes(gs: Seq<Seq<char>>, budget: int) -> Seq<char>
    decreases gs.len(),
{
    if gs.len() == 0 {
        seq![]
    } else {
        let e = percent_encoded(gs[0]);
        if e.len() < budget {
            e + take_graphemes(gs.drop_first(), budget - e.len())
        } else {
            seq![]
        }
    }
}

/// The key part that a tag value renders to.
pub open spec fn encode_key_part_spec(s: Seq<char>) -> Seq<char> {
    let e = percent_encoded(s);
    if e.len() == 0 {
        seq![PARTITION_KEY_VALUE_EMPTY]
    } else if e.len() <= PARTITION_KEY_MAX_PART_LEN {
        e
    } else {
        take_graphemes(extended_graphemes(s), PARTITION_KEY_MAX_PART_LEN as int).push(
            PARTITION_KEY_PART_TRUNCATED,
        )
    }
}

/// Relies on `percent_encoding::percent_encode_byte`: `%` and the two
/// upper-case hexadecimal digits of the byte.
#[verifier::external_body]
fn percent_encode_byte(b: u8) -> (r: &'static str)
    ensures
        r@ == percent_triplet(b),
{
    percent_encoding::percent_encode_byte(b)
}

/// Relies on `String::from_utf8`: ASCII bytes are valid UTF-8 and decode to
/// the characters of the same value.
#[verifier::external_body]
pub(crate) fn string_from_ascii(bytes: Vec<u8>) -> (r: String)
    requires
        forall|i: int| 0 <= i < bytes@.len() ==> bytes@[i] < 0x80,
    ensures
        r@ == bytes@.map_values(|b: u8| b as char),
{
    match String::from_utf8(bytes) {
        Ok(s) => s,
        Err(_) => String::new(),
    }
}

/// Relies on `UnicodeSegmentation::graphemes(s, true)`: the extended
/// grapheme clusters of `s`, as non-empty slices that follow one another and
/// cover `s`.
#[verifier::external_body]
fn graphemes<'s>(s: &'s str) -> (r: Vec<&'s str>)
    ensures
        r@.map_values(|g: &str| g@) == extended_graphemes(s@),
        r@.map_values(|g: &str| g@).flatten() == s@,
        forall|i: int| 0 <= i < r@.len() ==> r@[i]@.len() > 0,
{
    unicode_segmentation::UnicodeSegmentation::graphemes(s, true).collect()
}

proof fn lemma_triplet_ascii(b: u8)
    ensures
        percent_triplet(b).len() == 3,
        forall|i: int| 0 <= i < 3 ==> (percent_triplet(b)[i] as u32) < 0x80,
        percent_triplet(b)[0] == '%',
        forall|i: int|
            1 <= i < 3 ==> ('0' <= #[trigger] percent_triplet(b)[i] <= '9') || ('A'
                <= percent_triplet(b)[i] <= 'F'),
{
}

/// A character that may stand in an encoded value: printable ASCII, and
/// none of `|`, `!`, `^` and `#`.
pub open spec fn is_plain_key_char(c: char) -> bool {
    &&& ' ' <= c <= '~'
    &&& c != PARTITION_KEY_DELIMITER
    &&& c != PARTITION_KEY_VALUE_NULL
    &&& c != PARTITION_KEY_VALUE_EMPTY
    &&& c != PARTITION_KEY_PART_TRUNCATED
}

/// An upper-case hexadecimal digit.
pub open spec fn is_hex_digit(c: char) -> bool {
    ('0' <= c <= '9') || ('A' <= c <= 'F')
}

/// Every `%` in `s` starts an escape: two hexadecimal digits follow it.
pub open spec fn escapes_well_formed(s: Seq<char>) -> bool {
    forall|i: int|
        0 <= i < s.len() && #[trigger] s[i] == '%' ==> i + 2 < s.len() && is_hex_digit(s[i + 1])
            && is_hex_digit(s[i + 2])
}

proof fn lemma_escapes_concat(a: Seq<char>, c: Seq<char>)
    requires
        escapes_well_formed(a),
        escapes_well_formed(c),
    ensures
        escapes_well_formed(a + c),
{
    let s = a + c;
    assert forall|i: int| 0 <= i < s.len() && #[trigger] s[i] == '%' implies i + 2 < s.len()
        && is_hex_digit(s[i + 1]) && is_hex_digit(s[i + 2]) by {
        if i < a.len() {
            assert(a[i] == '%');
        } else {
            assert(c[i - a.len()] == '%');
        }
    }
}

proof fn lemma_encode_bytes_escapes(bs: Seq<u8>)
    ensures
        escapes_well_formed(encode_bytes(bs)),
    decreases bs.len(),
{
    if bs.len() > 0 {
        lemma_encode_bytes_escapes(bs.drop_last());
        let b = bs.last();
        lemma_triplet_ascii(b);
        let e = encode_byte(b);
        assert(escapes_well_formed(e)) by {
            if !is_encoded_byte(b) {
                assert(e[0] == b as char);
            }
        }
        lemma_escapes_concat(encode_bytes(bs.drop_last()), e);
    }
}

proof fn lemma_encode_bytes_concat(a: Seq<u8>, b: Seq<u8>)
    ensures
        encode_bytes(a + b) == encode_bytes(a) + encode_bytes(b),
    decreases b.len(),
{
    if b.len() == 0 {
        assert(a + b =~= a);
        assert(encode_bytes(a) + encode_bytes(b) =~= encode_bytes(a));
    } else {
        lemma_encode_bytes_concat(a, b.drop_last());
        assert((a + b).drop_last() =~= a + b.drop_last());
        assert((a + b).last() == b.last());
        assert(encode_bytes(a + b) =~= encode_bytes(a) + encode_bytes(b));
    }
}

proof fn lemma_encode_utf8_concat(a: Seq<char>, b: Seq<char>)
    ensures
        encode_utf8(a + b) == encode_utf8(a) + encode_utf8(b),
    decreases a.len(),
{
    if a.len() == 0 {
        assert(a + b =~= b);
        assert(encode_utf8(a) + encode_utf8(b) =~= encode_utf8(b));
    } else {
        lemma_encode_utf8_concat(a.drop_first(), b);
        assert((a + b).drop_first() =~= a.drop_first() + b);
        assert((a + b)[0] == a[0]);
        assert(encode_utf8(a + b) =~= encode_utf8(a) + encode_utf8(b));
    }
}

/// Encoding distributes over concatenation.
pub proof fn lemma_percent_encoded_concat(a: Seq<char>, b: Seq<char>)
    ensures
        percent_encoded(a + b) == percent_encoded(a) + percent_encoded(b),
{
    lemma_encode_utf8_concat(a, b);
    lemma_encode_bytes_concat(encode_utf8(a), encode_utf8(b));
}

proof fn lemma_encode_bytes_plain(bs: Seq<u8>)
    ensures
        encode_bytes(bs).len() >= bs.len(),
        forall|i: int|
            0 <= i < encode_bytes(bs).len() ==> is_plain_key_char(#[trigger] encode_bytes(bs)[i]),
    decreases bs.len(),
{
    if bs.len() > 0 {
        lemma_encode_bytes_plain(bs.drop_last());
        let b = bs.last();
        let prev = encode_bytes(bs.drop_last());
        lemma_triplet_ascii(b);
        assert forall|i: int| 0 <= i < encode_bytes(bs).len() implies is_plain_key_char(
            #[trigger] encode_bytes(bs)[i],
        ) by {
            if i >= prev.len() {
                let c = encode_byte(b)[i - prev.len()];
                if !is_encoded_byte(b) {
                    assert(c == b as char);
                }
            }
        }
    }
}

/// The encoding of a non-empty value is not empty.
proof fn lemma_percent_encoded_nonempty(s: Seq<char>)
    ensures
        s.len() > 0 ==> percent_encoded(s).len() > 0,
        forall|i: int|
            0 <= i < percent_encoded(s).len() ==> is_plain_key_char(#[trigger] percent_encoded(s)[i]),
{
    lemma_encode_bytes_plain(encode_utf8(s));
    if s.len() > 0 {
        assert(encode_utf8(s).len() > 0);
    }
}

proof fn lemma_take_graphemes(gs: Seq<Seq<char>>, budget: int)
    requires
        budget > 0,
    ensures
        take_graphemes(gs, budget).len() < budget,
        exists|m: int|
            0 <= m <= gs.len() && take_graphemes(gs, budget) == percent_encoded(
                #[trigger] gs.take(m).flatten(),
            ),
    decreases gs.len(),
{
    assert(gs.take(0).flatten() =~= Seq::<char>::empty());
    assert(percent_encoded(Seq::<char>::empty()) =~= Seq::<char>::empty());
    if gs.len() > 0 {
        let e = percent_encoded(gs[0]);
        if e.len() < budget {
            lemma_take_graphemes(gs.drop_first(), budget - e.len());
            let m = choose|m: int|
                0 <= m <= gs.drop_first().len() && take_graphemes(gs.drop_first(), budget - e.len())
                    == percent_encoded(#[trigger] gs.drop_first().take(m).flatten());
            let t = gs.take(m + 1);
            assert(t.drop_first() =~= gs.drop_first().take(m));
            assert(t.flatten() == t[0] + t.drop_first().flatten());
            lemma_percent_encoded_concat(gs[0], gs.drop_first().take(m).flatten());
        }
    }
}

/// Every key part that a tag value renders to is at most 200 characters
/// of ASCII, and so at most 200 bytes. It is the lone `^` of the empty value,
/// the whole encoding of the value, or the encoding of the value's leading
/// whole grapheme clusters followed by one `#`; an encoding holds no `|`,
/// `!`, `^` or `#`, so the part holds no unescaped delimiter.
pub proof fn lemma_key_part_well_formed(s: Seq<char>)
    ensures
        encode_key_part_spec(s).len() <= PARTITION_KEY_MAX_PART_LEN,
        is_ascii_chars(encode_key_part_spec(s)),
        encode_utf8(encode_key_part_spec(s)).len() == encode_key_part_spec(s).len(),
        forall|i: int|
            0 <= i < encode_key_part_spec(s).len() ==> #[trigger] encode_key_part_spec(s)[i]
                != PARTITION_KEY_DELIMITER,
        forall|i: int|
            0 <= i < encode_key_part_spec(s).len() ==> ' ' <= #[trigger] encode_key_part_spec(s)[i]
                <= '~' && encode_key_part_spec(s)[i] != PARTITION_KEY_VALUE_NULL,
        escapes_well_formed(encode_key_part_spec(s)),
        encode_key_part_spec(s) == seq![PARTITION_KEY_VALUE_EMPTY] || forall|i: int|
            0 <= i < encode_key_part_spec(s).len() ==> #[trigger] encode_key_part_spec(s)[i]
                != PARTITION_KEY_VALUE_EMPTY,
        ({
            let k = encode_key_part_spec(s);
            ||| (s.len() == 0 && k == seq![PARTITION_KEY_VALUE_EMPTY])
            ||| (s.len() > 0 && k == percent_encoded(s))
            ||| exists|m: int|
                0 <= m <= extended_graphemes(s).len() && k == percent_encoded(
                    #[trigger] extended_graphemes(s).take(m).flatten(),
                ).push(PARTITION_KEY_PART_TRUNCATED)
        }),
{
    let k = encode_key_part_spec(s);
    let e = percent_encoded(s);
    lemma_percent_encoded_nonempty(s);
    lemma_encode_bytes_escapes(encode_utf8(s));
    if e.len() == 0 {
        assert(s.len() == 0);
    } else if e.len() <= PARTITION_KEY_MAX_PART_LEN {
        assert(s.len() > 0) by {
            if s.len() == 0 {
                assert(encode_utf8(s) =~= Seq::<u8>::empty());
            }
        }
    } else {
        let gs = extended_graphemes(s);
        lemma_take_graphemes(gs, PARTITION_KEY_MAX_PART_LEN as int);
        let m = choose|m: int|
            0 <= m <= gs.len() && take_graphemes(gs, PARTITION_KEY_MAX_PART_LEN as int)
                == percent_encoded(#[trigger] gs.take(m).flatten());
        lemma_percent_encoded_nonempty(gs.take(m).flatten());
        assert(k[k.len() - 1] == PARTITION_KEY_PART_TRUNCATED);
        let pre = percent_encoded(gs.take(m).flatten());
        lemma_encode_bytes_escapes(encode_utf8(gs.take(m).flatten()));
        lemma_escapes_concat(pre, seq![PARTITION_KEY_PART_TRUNCATED]);
        assert(k =~= pre + seq![PARTITION_KEY_PART_TRUNCATED]);
    }
    assert(is_ascii_chars(k));
    is_ascii_chars_encode_utf8(k);
}

/// A value whose encoding is 1 to 200 bytes long (199 and 200 included) is
/// rendered whole; a longer one is rendered in at most 200 bytes that end in
/// a `#`, the only one of the part.
pub proof fn lemma_truncation_boundary(s: Seq<char>)
    ensures
        1 <= percent_encoded(s).len() <= PARTITION_KEY_MAX_PART_LEN ==> encode_key_part_spec(s)
            == percent_encoded(s),
        percent_encoded(s).len() > PARTITION_KEY_MAX_PART_LEN ==> {
            let k = encode_key_part_spec(s);
            &&& k.len() <= PARTITION_KEY_MAX_PART_LEN
            &&& k.last() == PARTITION_KEY_PART_TRUNCATED
            &&& forall|i: int| 0 <= i < k.len() - 1 ==> #[trigger] k[i] != PARTITION_KEY_PART_TRUNCATED
        },
{
    lemma_key_part_well_formed(s);
    let k = encode_key_part_spec(s);
    if percent_encoded(s).len() > PARTITION_KEY_MAX_PART_LEN {
        let gs = extended_graphemes(s);
        lemma_take_graphemes(gs, PARTITION_KEY_MAX_PART_LEN as int);
        let m = choose|m: int|
            0 <= m <= gs.len() && take_graphemes(gs, PARTITION_KEY_MAX_PART_LEN as int)
                == percent_encoded(#[trigger] gs.take(m).flatten());
        lemma_percent_encoded_nonempty(gs.take(m).flatten());
        assert forall|i: int| 0 <= i < k.len() - 1 implies #[trigger] k[i]
            != PARTITION_KEY_PART_TRUNCATED by {
            assert(k[i] == percent_encoded(gs.take(m).flatten())[i]);
        }
    }
}

/// Percent-encodes `s`.
pub fn percent_encode(s: &str) -> (r: String)
    ensures
        r@ == percent_encoded(s@),
{
    let bytes = s.as_bytes();
    let ghost bs = encode_utf8(s@);
    let mut out: Vec<u8> = Vec::new();
    let mut i: usize = 0;
    while i < bytes.len()
        invariant
            bytes@ == bs,
            0 <= i <= bs.len(),
            out@.map_values(|b: u8| b as char) == encode_bytes(bs.subrange(0, i as int)),
            forall|j: int| 0 <= j < out@.len() ==> out@[j] < 0x80,
        decreases bs.len() - i,
    {
        let b = bytes[i];
        let ghost before = out@;
        if b < 0x20 || b >= 0x7f || b == 0x7c || b == 0x21 || b == 0x5e || b == 0x23 || b == 0x25 {
            let t = percent_encode_byte(b);
            let tb = t.as_bytes();
            proof {
                lemma_triplet_ascii(b);
                assert(is_ascii_chars(t@));
                is_ascii_chars_encode_utf8(t@);
            }
            out.push(tb[0]);
            out.push(tb[1]);
            out.push(tb[2]);
            proof {
                assert(out@.map_values(|b: u8| b as char) =~= before.map_values(|b: u8| b as char)
                    + percent_triplet(b));
            }
        } else {
            out.push(b);
            proof {
                assert(out@.map_values(|b: u8| b as char) =~= before.map_values(|b: u8| b as char)
                    + seq![b as char]);
            }
        }
        proof {
            assert(bs.subrange(0, i + 1).drop_last() =~= bs.subrange(0, i as int));
        }
        i = i + 1;
    }
    proof {
        assert(bs.subrange(0, i as int) =~= bs);
    }
    string_from_ascii(out)
}

/// The encodings of the leading clusters `gs` of a value, taken while their
/// total length stays under [`PARTITION_KEY_MAX_PART_LEN`], followed by the
/// truncation marker.
pub fn truncate_clusters(gs: &Vec<&str>) -> (r: String)
    ensures
        r@ == take_graphemes(gs@.map_values(|g: &str| g@), PARTITION_KEY_MAX_PART_LEN as int).push(
            PARTITION_KEY_PART_TRUNCATED,
        ),
{
    let ghost g = gs@.map_values(|x: &str| x@);
    let ghost total = take_graphemes(g, PARTITION_KEY_MAX_PART_LEN as int);
    let mut buf = String::new();
    let mut used: usize = 0;
    let mut i: usize = 0;
    let mut done = false;
    proof {
        assert(g.subrange(0, g.len() as int) =~= g);
        assert(buf@ + total =~= total);
    }
    while i < gs.len() && !done
        invariant
            g == gs@.map_values(|x: &str| x@),
            total == take_graphemes(g, PARTITION_KEY_MAX_PART_LEN as int),
            0 <= i <= gs@.len(),
            used < PARTITION_KEY_MAX_PART_LEN,
            buf@.len() == used,
            buf@ + take_graphemes(
                g.subrange(i as int, g.len() as int),
                PARTITION_KEY_MAX_PART_LEN - used,
            ) == total,
            done ==> take_graphemes(
                g.subrange(i as int, g.len() as int),
                PARTITION_KEY_MAX_PART_LEN - used,
            ) == Seq::<char>::empty(),
        decreases gs@.len() - i + (if done { 0int } else { 1int }),
    {
        let p = percent_encode(gs[i]);
        let pl = p.as_str().unicode_len();
        let ghost rest = g.subrange(i as int, g.len() as int);
        proof {
            assert(rest[0] == g[i as int]);
            assert(rest.drop_first() =~= g.subrange(i + 1, g.len() as int));
        }
        if pl >= PARTITION_KEY_MAX_PART_LEN - used {
            done = true;
        } else {
            proof {
                assert(buf@ + p@ + take_graphemes(
                    g.subrange(i + 1, g.len() as int),
                    PARTITION_KEY_MAX_PART_LEN - used - pl,
                ) =~= buf@ + take_graphemes(rest, PARTITION_KEY_MAX_PART_LEN - used));
            }
            buf.append(p.as_str());
            used = used + pl;
            i = i + 1;
        }
    }
    proof {
        if !done {
            assert(g.subrange(i as int, g.len() as int) =~= Seq::<Seq<char>>::empty());
        }
        assert(buf@ =~= total);
        reveal_strlit("#");
    }
    buf.append("#");
    proof {
        assert(buf@ =~= total.push(PARTITION_KEY_PART_TRUNCATED));
    }
    buf
}

/// Renders a tag value as a key part: percent-encoded, `^` when that is
/// empty, and cut after whole grapheme clusters with a trailing `#` when it
/// is longer than [`PARTITION_KEY_MAX_PART_LEN`] bytes.
pub fn encode_key_part(s: &str) -> (r: String)
    ensures
        r@ == encode_key_part_spec(s@),
{
    let e = percent_encode(s);
    let n = e.as_str().unicode_len();
    if n == 0 {
        let r = String::from_str("^");
        proof {
            reveal_strlit("^");
            assert(r@ =~= seq![PARTITION_KEY_VALUE_EMPTY]);
        }
        return r;
    }
    if n <= PARTITION_KEY_MAX_PART_LEN {
        return e;
    }
    let gs = graphemes(s);
    truncate_clusters(&gs)
}

} // verus!
