//! Export file names: the default name, the name that keeps an existing file
//! from being overwritten, and the refresh of a timestamp already in a name.
//! Directory handling and existence checks stay with the caller; these
//! functions decide the file name only.

use vstd::prelude::*;
use vstd::utf8::{decode_utf8, encode_utf8, is_char_boundary, valid_utf8, is_continuation_byte};
use vstd::string::StringSliceAdditionalSpecFns;
use crate::text::{decimal, digit_char, is_digit};
use crate::timestamp::{
    Timestamp, compact_text, compact_stamp, year_text, zero_padded, two_digits,
};

verus! {

/// The view of an optional string slice.
pub open spec fn opt_str_view(o: Option<&str>) -> Option<Seq<char>> {
    match o {
        Some(s) => Some(s@),
        None => None,
    }
}

/// The file name that an export gets when the user has not chosen one.
pub open spec fn default_file_name_text(ts: Timestamp) -> Seq<char> {
    "GNN_Export_"@ + compact_text(ts) + ".xml"@
}

/// `stem`, an underscore and the compact stamp, then the extension after a
/// dot where there is one.
pub open spec fn stamped_name(stem: Seq<char>, extension: Option<Seq<char>>, ts: Timestamp) -> Seq<char> {
    match extension {
        Some(e) => stem + seq!['_'] + compact_text(ts) + seq!['.'] + e,
        None => stem + seq!['_'] + compact_text(ts),
    }
}

/// The stem used when a path has none.
pub open spec fn fallback_stem() -> Seq<char> {
    "GNN_Export"@
}

/// The extension used when a path has none.
pub open spec fn fallback_extension() -> Seq<char> {
    "xml"@
}

/// The name `unique_file_name` gives: the stem (or `GNN_Export`), the stamp,
/// and the extension (or `xml`).
pub open spec fn unique_file_name_text(stem: Option<Seq<char>>, extension: Option<Seq<char>>, ts: Timestamp) -> Seq<char> {
    let s = match stem {
        Some(s) => s,
        None => fallback_stem(),
    };
    let e = match extension {
        Some(e) => e,
        None => fallback_extension(),
    };
    stamped_name(s, Some(e), ts)
}

/// Whether 16 bytes have the shape `_YYYYMMDD_HHMMSS` (eight digits, an
/// underscore, six digits, after a leading underscore).
pub open spec fn is_stamp_suffix(b: Seq<u8>) -> bool {
    &&& b.len() == 16
    &&& b[0] == 95u8
    &&& b[9] == 95u8
    &&& forall|i: int| 1 <= i < 9 ==> 48u8 <= #[trigger] b[i] <= 57u8
    &&& forall|i: int| 10 <= i < 16 ==> 48u8 <= #[trigger] b[i] <= 57u8
}

/// The bytes of a stem without its trailing stamp: `None` unless the stem
/// is longer than 16 bytes and ends in a stamp suffix.
pub open spec fn stamp_stripped(bytes: Seq<u8>) -> Option<Seq<u8>> {
    if bytes.len() <= 16 {
        None
    } else if is_stamp_suffix(bytes.subrange(bytes.len() - 16, bytes.len() as int)) {
        Some(bytes.subrange(0, bytes.len() - 16))
    } else {
        None
    }
}

/// The default export file name `GNN_Export_YYYYMMDD_HHMMSS.xml`.
pub fn default_file_name(now: &Timestamp) -> (s: String)
    requires
        now.wf(),
    ensures
        s@ == default_file_name_text(*now),
{
    let mut s = "GNN_Export_".to_owned();
    let stamp = compact_stamp(now);
    s.append(stamp.as_str());
    s.append(".xml");
    s
}

/// `stem_STAMP.extension`, or `stem_STAMP` when there is no extension.
pub fn file_name_with_stem(stem: &str, extension: Option<&str>, now: &Timestamp) -> (s: String)
    requires
        now.wf(),
    ensures
        s@ == stamped_name(stem@, opt_str_view(extension), *now),
{
    let mut s = stem.to_owned();
    s.append("_");
    let stamp = compact_stamp(now);
    s.append(stamp.as_str());
    proof {
        reveal_strlit("_");
    }
    match extension {
        Some(e) => {
            s.append(".");
            proof {
                reveal_strlit(".");
            }
            s.append(e);
        },
        None => {},
    }
    s
}

/// The name that keeps an existing export from being overwritten: the
/// path's stem (or `GNN_Export`), an underscore, the stamp, a dot and the
/// path's extension (or `xml`).
pub fn unique_file_name(stem: Option<&str>, extension: Option<&str>, now: &Timestamp) -> (s: String)
    requires
        now.wf(),
    ensures
        s@ == unique_file_name_text(opt_str_view(stem), opt_str_view(extension), *now),
{
    let st = match stem {
        Some(s) => s,
        None => "GNN_Export",
    };
    let ext = match extension {
        Some(e) => e,
        None => "xml",
    };
    file_name_with_stem(st, Some(ext), now)
}

/// The stem without a trailing `_YYYYMMDD_HHMMSS` stamp, if it ends in one
/// and has something before it. A stem whose last 16 bytes begin inside a
/// character cannot end in a stamp, and gives `None`.
pub fn strip_timestamp_suffix(stem: &str) -> (r: Option<&str>)
    ensures
        match stamp_stripped(stem.spec_bytes()) {
            Some(b) => r matches Some(base) && base.spec_bytes() == b,
            None => r is None,
        },
{
    let bytes = stem.as_bytes();
    let n = bytes.len();
    if n <= 16 {
        return None;
    }
    let split_at = n - 16;
    let ghost whole = stem.spec_bytes();
    let ghost suffix = whole.subrange(split_at as int, n as int);
    let mut ok = bytes[split_at] == 95u8 && bytes[split_at + 9] == 95u8;
    let mut i: usize = 1;
    while i < 16
        invariant
            bytes@ == whole,
            whole.len() == n,
            n > 16,
            split_at == n - 16,
            suffix == whole.subrange(split_at as int, n as int),
            1 <= i <= 16,
            ok == (suffix[0] == 95u8 && suffix[9] == 95u8 && (forall|k: int| 1 <= k < i && k != 9 ==> 48u8 <= #[trigger] suffix[k] <= 57u8)),
        decreases 16 - i,
    {
        let b = bytes[split_at + i];
        assert(b == suffix[i as int]);
        if i != 9 && !(48u8 <= b && b <= 57u8) {
            ok = false;
        }
        i = i + 1;
    }
    if ok {
        proof {
            broadcast use vstd::utf8::encode_utf8_valid_utf8, vstd::utf8::is_char_boundary_iff_not_is_continuation_byte;
            assert(whole[split_at as int] == suffix[0]);
            assert(!is_continuation_byte(whole[split_at as int]));
            assert(is_char_boundary(whole, split_at as int));
        }
        let (head, _tail) = stem.split_at(split_at);
        Some(head)
    } else {
        assert(!is_stamp_suffix(suffix));
        None
    }
}

/// The name `refresh_timestamped_name` gives: the stem without its stamp,
/// followed by `_`, the new stamp and the extension; `None` when the stem
/// carries no stamp.
pub open spec fn refreshed_name(stem: Seq<char>, extension: Option<Seq<char>>, ts: Timestamp) -> Option<Seq<char>> {
    match stamp_stripped(encode_utf8(stem)) {
        Some(b) => Some(stamped_name(decode_utf8(b), extension, ts)),
        None => None,
    }
}

/// The file name with its stamp replaced by the current one: `None` when
/// the stem carries no stamp.
pub fn refresh_timestamped_name(stem: &str, extension: Option<&str>, now: &Timestamp) -> (r: Option<String>)
    requires
        now.wf(),
    ensures
        match refreshed_name(stem@, opt_str_view(extension), *now) {
            Some(name) => r matches Some(s) && s@ == name,
            None => r is None,
        },
{
    match strip_timestamp_suffix(stem) {
        Some(base) => {
            proof {
                vstd::utf8::encode_utf8_decode_utf8(base@);
            }
            Some(file_name_with_stem(base, extension, now))
        },
        None => None,
    }
}

proof fn lemma_decimal_digits(n: nat)
    ensures
        forall|i: int| 0 <= i < decimal(n).len() ==> is_digit(#[trigger] decimal(n)[i]),
        decimal(n).len() >= 1,
        n < 10 ==> decimal(n).len() == 1,
        n < 100 ==> decimal(n).len() <= 2,
        n < 1000 ==> decimal(n).len() <= 3,
        n < 10000 ==> decimal(n).len() <= 4,
    decreases n,
{
    if n >= 10 {
        lemma_decimal_digits(n / 10);
    }
}

proof fn lemma_zero_padded_4(n: nat)
    requires
        n < 10000,
    ensures
        zero_padded(n, 4).len() == 4,
        forall|i: int| 0 <= i < 4 ==> is_digit(#[trigger] zero_padded(n, 4)[i]),
{
    lemma_decimal_digits(n);
    let d = decimal(n);
    if d.len() < 4 {
        let pad = Seq::new((4 - d.len()) as nat, |i: int| '0');
        assert forall|i: int| 0 <= i < 4 implies is_digit(#[trigger] zero_padded(n, 4)[i]) by {
            if i < pad.len() {
                assert(zero_padded(n, 4)[i] == '0');
            } else {
                assert(zero_padded(n, 4)[i] == d[i - pad.len()]);
            }
        }
    }
}

proof fn lemma_two_digits(n: nat)
    requires
        n < 100,
    ensures
        two_digits(n).len() == 2,
        forall|i: int| 0 <= i < 2 ==> is_digit(#[trigger] two_digits(n)[i]),
{
}

/// Layout of the compact stamp for years 0 to 9999: eight digits, an
/// underscore, six digits.
proof fn lemma_compact_layout(ts: Timestamp)
    requires
        ts.wf(),
        0 <= ts.year <= 9999,
    ensures
        compact_text(ts).len() == 15,
        compact_text(ts)[8] == '_',
        forall|i: int| 0 <= i < 15 && i != 8 ==> is_digit(#[trigger] compact_text(ts)[i]),
{
    lemma_zero_padded_4(ts.year as nat);
    lemma_two_digits(ts.month as nat);
    lemma_two_digits(ts.day as nat);
    lemma_two_digits(ts.hour as nat);
    lemma_two_digits(ts.minute as nat);
    lemma_two_digits((ts.second + ts.nanosecond / 1_000_000_000) as nat);
    let y = year_text(ts.year as int);
    let m = two_digits(ts.month as nat);
    let d = two_digits(ts.day as nat);
    let h = two_digits(ts.hour as nat);
    let mi = two_digits(ts.minute as nat);
    let se = two_digits((ts.second + ts.nanosecond / 1_000_000_000) as nat);
    let c = compact_text(ts);
    assert(c == y + m + d + seq!['_'] + h + mi + se);
    assert forall|i: int| 0 <= i < 15 && i != 8 implies is_digit(#[trigger] c[i]) by {
        if i < 4 {
            assert(c[i] == y[i]);
        } else if i < 6 {
            assert(c[i] == m[i - 4]);
        } else if i < 8 {
            assert(c[i] == d[i - 6]);
        } else if i < 11 {
            assert(c[i] == h[i - 9]);
        } else if i < 13 {
            assert(c[i] == mi[i - 11]);
        } else {
            assert(c[i] == se[i - 13]);
        }
    }
}

proof fn lemma_digit_byte(c: char)
    requires
        is_digit(c),
    ensures
        48u8 <= (c as u8) <= 57u8,
{
}

/// The UTF-8 encoding of a concatenation is the concatenation of the encodings.
pub proof fn lemma_encode_utf8_concat(a: Seq<char>, b: Seq<char>)
    ensures
        encode_utf8(a + b) == encode_utf8(a) + encode_utf8(b),
    decreases a.len(),
{
    if a.len() == 0 {
        assert(a + b == b);
    } else {
        assert((a + b).drop_first() == a.drop_first() + b);
        assert((a + b)[0] == a[0]);
        lemma_encode_utf8_concat(a.drop_first(), b);
    }
}

proof fn lemma_encode_len_at_least(a: Seq<char>)
    ensures
        encode_utf8(a).len() >= a.len(),
    decreases a.len(),
{
    if a.len() > 0 {
        lemma_encode_len_at_least(a.drop_first());
    }
}

/// Whether 15 characters have the shape `YYYYMMDD_HHMMSS`: eight ASCII
/// digits, an underscore and six ASCII digits.
pub open spec fn is_stamp_text(t: Seq<char>) -> bool {
    &&& t.len() == 15
    &&& t[8] == '_'
    &&& forall|i: int| 0 <= i < 15 && i != 8 ==> is_digit(#[trigger] t[i])
}

/// Any stem made of a nonempty base, an underscore and a stamp-shaped tail
/// can be cut 16 bytes before its end, and strips back to exactly the base.
pub proof fn lemma_stamped_stem_strips_back(base: Seq<char>, stamp: Seq<char>)
    requires
        base.len() > 0,
        is_stamp_text(stamp),
    ensures
        is_char_boundary(encode_utf8(base + seq!['_'] + stamp), encode_utf8(base).len() as int),
        stamp_stripped(encode_utf8(base + seq!['_'] + stamp)) == Some(encode_utf8(base)),
{
    broadcast use vstd::utf8::is_ascii_chars_encode_utf8, vstd::utf8::encode_utf8_valid_utf8,
        vstd::utf8::is_char_boundary_iff_not_is_continuation_byte;
    let tail = seq!['_'] + stamp;
    assert(base + seq!['_'] + stamp == base + tail);
    lemma_encode_utf8_concat(base, tail);
    lemma_encode_len_at_least(base);
    assert(vstd::utf8::is_ascii_chars(tail)) by {
        assert forall|i: int| 0 <= i < tail.len() implies '\0' <= #[trigger] tail[i] <= '\u{7f}' by {
            if i > 0 {
                assert(tail[i] == stamp[i - 1]);
                if i != 9 {
                    assert(is_digit(stamp[i - 1]));
                }
            }
        }
    }
    let eb = encode_utf8(base);
    let et = encode_utf8(tail);
    let all = encode_utf8(base + tail);
    assert(all == eb + et);
    assert(et.len() == 16);
    let suffix = all.subrange(all.len() - 16, all.len() as int);
    assert(suffix == et);
    assert forall|i: int| 0 <= i < 16 implies #[trigger] et[i] == tail[i] as u8 by {
    }
    assert(et[0] == 95u8);
    assert(tail[9] == stamp[8]);
    assert(et[9] == 95u8);
    assert forall|i: int| 1 <= i < 9 implies 48u8 <= #[trigger] et[i] <= 57u8 by {
        assert(tail[i] == stamp[i - 1]);
        assert(is_digit(stamp[i - 1]));
        lemma_digit_byte(tail[i]);
    }
    assert forall|i: int| 10 <= i < 16 implies 48u8 <= #[trigger] et[i] <= 57u8 by {
        assert(tail[i] == stamp[i - 1]);
        assert(is_digit(stamp[i - 1]));
        lemma_digit_byte(tail[i]);
    }
    assert(is_stamp_suffix(suffix));
    assert(all.subrange(0, all.len() - 16) == eb);
    assert(valid_utf8(all));
    assert(all[eb.len() as int] == 95u8);
    assert(!is_continuation_byte(all[eb.len() as int]));
}

/// A refreshed name does not pile stamps up: a stem made of a nonempty
/// base, an underscore and the compact stamp of a timestamp (of a year from
/// 0 to 9999) can be cut 16 bytes before its end, and strips back to
/// exactly the base. Refreshing it again therefore replaces the stamp.
pub proof fn lemma_stamp_strips_back(base: Seq<char>, ts: Timestamp)
    requires
        base.len() > 0,
        ts.wf(),
        0 <= ts.year <= 9999,
    ensures
        is_char_boundary(encode_utf8(base + seq!['_'] + compact_text(ts)), encode_utf8(base).len() as int),
        stamp_stripped(encode_utf8(base + seq!['_'] + compact_text(ts))) == Some(encode_utf8(base)),
{
    lemma_compact_layout(ts);
    lemma_stamped_stem_strips_back(base, compact_text(ts));
}

/// The name a stamped name was made from: `stem.extension`, or the bare
/// stem when there is no extension.
pub open spec fn plain_name(stem: Seq<char>, extension: Option<Seq<char>>) -> Seq<char> {
    match extension {
        Some(e) => stem + seq!['.'] + e,
        None => stem,
    }
}

/// A stamped name never equals the name it was made from: the stamp makes
/// it longer, so the export that meets an existing `stem.extension` is
/// written to `stem_STAMP.extension` and the existing file stays as it is.
pub proof fn lemma_stamped_name_differs(stem: Seq<char>, extension: Option<Seq<char>>, ts: Timestamp)
    ensures
        stamped_name(stem, extension, ts) != plain_name(stem, extension),
        stamped_name(stem, extension, ts).len() > plain_name(stem, extension).len(),
{
    assert(compact_text(ts).len() >= 1);
}

/// Refreshing a stamped name replaces its stamp rather than adding a second
/// one: a stem made of a nonempty base, `_` and any eight digits, `_` and
/// six digits refreshes to the base with the new stamp. Stems that differ
/// only in their old stamp therefore refresh alike.
pub proof fn lemma_refresh_replaces_stamp(base: Seq<char>, stamp: Seq<char>, extension: Option<Seq<char>>, now: Timestamp)
    requires
        base.len() > 0,
        is_stamp_text(stamp),
    ensures
        refreshed_name(base + seq!['_'] + stamp, extension, now) == Some(stamped_name(base, extension, now)),
{
    lemma_stamped_stem_strips_back(base, stamp);
    vstd::utf8::encode_utf8_decode_utf8(base);
}

} // verus!
