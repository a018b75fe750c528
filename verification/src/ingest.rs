use vstd::prelude::*;

verus! {

// ---------------------------------------------------------------------------
// Fields of a create or update request.
// ---------------------------------------------------------------------------

/// One named field of a request body, already read into memory.
pub struct RawField {
    pub name: Vec<u8>,
    pub filename: Option<Vec<u8>>,
    pub data: Vec<u8>,
}

/// Model of a field: its name, the client-supplied filename, its payload.
#[verifier::ext_equal]
pub struct FieldModel {
    pub name: Seq<u8>,
    pub filename: Option<Seq<u8>>,
    pub data: Seq<u8>,
}

impl View for RawField {
    type V = FieldModel;

    open spec fn view(&self) -> FieldModel {
        FieldModel {
            name: self.name@,
            filename: match self.filename {
                Some(ref n) => Some(n@),
                None => None,
            },
            data: self.data@,
        }
    }
}

/// The recognised field names.
pub enum FieldKind {
    Content,
    UrlField,
    Destruct,
    Private,
    SunsetField,
    Label,
    Unknown,
}

/// Which handler a field name selects: `c`, `u`, `destruct`, `private`,
/// `sunset`, `label`; anything else is unknown.
pub open spec fn field_kind_of(name: Seq<u8>) -> FieldKind {
    if name.len() == 1 && name[0] == 99 {
        FieldKind::Content
    } else if name.len() == 1 && name[0] == 117 {
        FieldKind::UrlField
    } else if name.len() == 8 && name[0] == 100 && name[1] == 101 && name[2] == 115 && name[3]
        == 116 && name[4] == 114 && name[5] == 117 && name[6] == 99 && name[7] == 116 {
        FieldKind::Destruct
    } else if name.len() == 7 && name[0] == 112 && name[1] == 114 && name[2] == 105 && name[3]
        == 118 && name[4] == 97 && name[5] == 116 && name[6] == 101 {
        FieldKind::Private
    } else if name.len() == 6 && name[0] == 115 && name[1] == 117 && name[2] == 110 && name[3]
        == 115 && name[4] == 101 && name[5] == 116 {
        FieldKind::SunsetField
    } else if name.len() == 5 && name[0] == 108 && name[1] == 97 && name[2] == 98 && name[3] == 101
        && name[4] == 108 {
        FieldKind::Label
    } else {
        FieldKind::Unknown
    }
}

/// Dispatch on a field name.
pub fn classify_name(name: &Vec<u8>) -> (k: FieldKind)
    ensures
        k == field_kind_of(name@),
{
    if name.len() == 1 && name[0] == 99 {
        FieldKind::Content
    } else if name.len() == 1 && name[0] == 117 {
        FieldKind::UrlField
    } else if name.len() == 8 && name[0] == 100 && name[1] == 101 && name[2] == 115 && name[3]
        == 116 && name[4] == 114 && name[5] == 117 && name[6] == 99 && name[7] == 116 {
        FieldKind::Destruct
    } else if name.len() == 7 && name[0] == 112 && name[1] == 114 && name[2] == 105 && name[3]
        == 118 && name[4] == 97 && name[5] == 116 && name[6] == 101 {
        FieldKind::Private
    } else if name.len() == 6 && name[0] == 115 && name[1] == 117 && name[2] == 110 && name[3]
        == 115 && name[4] == 101 && name[5] == 116 {
        FieldKind::SunsetField
    } else if name.len() == 5 && name[0] == 108 && name[1] == 97 && name[2] == 98 && name[3] == 101
        && name[4] == 108 {
        FieldKind::Label
    } else {
        FieldKind::Unknown
    }
}

/// Why a request is rejected before anything is persisted.
#[derive(Clone, Copy, Debug, PartialEq, Eq, Structural)]
pub enum IngestError {
    /// A field name outside the recognised set.
    UnknownField,
    /// A url field arriving after blob content was already set.
    MixedContentAndUrl,
    /// A destruct or private payload that is neither `true` nor `false`.
    BadBool,
    /// A sunset payload that is not a decimal integer in range.
    BadInt,
    /// A sunset so far away that the timestamp cannot be represented.
    SunsetOutOfRange,
}

// ---------------------------------------------------------------------------
// Payload parsing: booleans, decimal integers, whitespace trimming.
// ---------------------------------------------------------------------------

/// The payload `true`.
pub open spec fn is_true_lit(s: Seq<u8>) -> bool {
    s.len() == 4 && s[0] == 116 && s[1] == 114 && s[2] == 117 && s[3] == 101
}

/// The payload `false`.
pub open spec fn is_false_lit(s: Seq<u8>) -> bool {
    s.len() == 5 && s[0] == 102 && s[1] == 97 && s[2] == 108 && s[3] == 115 && s[4] == 101
}

/// The boolean a payload denotes, if any.
pub open spec fn bool_of(s: Seq<u8>) -> Option<bool> {
    if is_true_lit(s) {
        Some(true)
    } else if is_false_lit(s) {
        Some(false)
    } else {
        None
    }
}

/// Parse a boolean payload.
pub fn parse_bool(s: &Vec<u8>) -> (r: Option<bool>)
    ensures
        r == bool_of(s@),
{
    if s.len() == 4 && s[0] == 116 && s[1] == 114 && s[2] == 117 && s[3] == 101 {
        Some(true)
    } else if s.len() == 5 && s[0] == 102 && s[1] == 97 && s[2] == 108 && s[3] == 115 && s[4]
        == 101 {
        Some(false)
    } else {
        None
    }
}

/// An ASCII decimal digit.
pub open spec fn is_digit(c: u8) -> bool {
    48 <= c && c <= 57
}

/// Value of a digit string, most significant digit first.
pub open spec fn dec_val(s: Seq<u8>) -> int
    decreases s.len(),
{
    if s.len() == 0 {
        0
    } else {
        dec_val(s.take(s.len() - 1)) * 10 + (s[s.len() - 1] - 48)
    }
}

/// Every byte is a decimal digit.
pub open spec fn all_digits(s: Seq<u8>) -> bool {
    forall|i: int| 0 <= i < s.len() ==> is_digit(#[trigger] s[i])
}

/// The digits of a payload, after an optional sign.
pub open spec fn int_payload(s: Seq<u8>) -> Seq<u8> {
    if s.len() > 0 && (s[0] == 43 || s[0] == 45) {
        s.skip(1)
    } else {
        s
    }
}

/// The sign a payload carries.
pub open spec fn int_sign(s: Seq<u8>) -> int {
    if s.len() > 0 && s[0] == 45 {
        -1
    } else {
        1
    }
}

/// The 64-bit signed integer a payload denotes: an optional sign, then at
/// least one digit, and a value the type can hold.
pub open spec fn parsed_i64(s: Seq<u8>) -> Option<int> {
    let digits = int_payload(s);
    if digits.len() >= 1 && all_digits(digits) {
        let v = int_sign(s) * dec_val(digits);
        if -0x8000000000000000 <= v <= 0x7fffffffffffffff {
            Some(v)
        } else {
            None
        }
    } else {
        None
    }
}

/// A digit string's value is never negative.
pub proof fn lemma_dec_val_nonneg(s: Seq<u8>)
    requires
        all_digits(s),
    ensures
        dec_val(s) >= 0,
    decreases s.len(),
{
    if s.len() > 0 {
        assert(all_digits(s.take(s.len() - 1)));
        lemma_dec_val_nonneg(s.take(s.len() - 1));
    }
}

/// Appending digits never shrinks the value.
pub proof fn lemma_dec_val_prefix_le(s: Seq<u8>, i: int)
    requires
        all_digits(s),
        0 <= i <= s.len(),
    ensures
        dec_val(s.take(i)) <= dec_val(s),
    decreases s.len() - i,
{
    if i < s.len() {
        assert(all_digits(s.take(i + 1)));
        assert(s.take(i + 1).take(i) =~= s.take(i));
        lemma_dec_val_nonneg(s.take(i));
        assert(dec_val(s.take(i + 1)) == dec_val(s.take(i)) * 10 + (s[i] - 48));
        lemma_dec_val_prefix_le(s, i + 1);
    } else {
        assert(s.take(i) =~= s);
    }
}

/// Parse a decimal 64-bit integer payload, rejecting anything out of range.
pub fn parse_i64(s: &Vec<u8>) -> (r: Option<i64>)
    ensures
        match r {
            Some(v) => parsed_i64(s@) == Some(v as int),
            None => parsed_i64(s@) is None,
        },
{
    let mut i: usize = 0;
    let mut negative: bool = false;
    if s.len() > 0 && (s[0] == 43 || s[0] == 45) {
        negative = s[0] == 45;
        i = 1;
    }
    let ghost digits = int_payload(s@);
    proof {
        assert(digits =~= s@.skip(i as int));
    }
    if i >= s.len() {
        return None;
    }
    let start = i;
    let mut mag: u128 = 0;
    while i < s.len()
        invariant
            start <= i <= s.len(),
            start == if s@.len() > 0 && (s@[0] == 43 || s@[0] == 45) {
                1int
            } else {
                0int
            },
            digits == s@.skip(start as int),
            negative == (s@.len() > 0 && s@[0] == 45),
            all_digits(digits.take(i - start)),
            mag == dec_val(digits.take(i - start)),
            mag <= 0x8000000000000000,
        decreases s.len() - i,
    {
        let c = s[i];
        if c < 48 || c > 57 {
            proof {
                assert(s@.skip(0) =~= s@);
                assert(digits == int_payload(s@));
                assert(digits[i - start] == c);
                assert(!all_digits(digits));
            }
            return None;
        }
        let d: u128 = (c - 48) as u128;
        let new_mag: u128 = mag * 10 + d;
        proof {
            assert(digits.take(i - start + 1).take(i - start) =~= digits.take(i - start));
            assert(digits.take(i - start + 1)[i - start] == c);
            assert(dec_val(digits.take(i - start + 1)) == mag * 10 + (c - 48));
            assert(all_digits(digits.take(i - start + 1)));
        }
        if new_mag > 0x8000000000000000 {
            proof {
                assert(s@.skip(0) =~= s@);
                assert(digits == int_payload(s@));
                if all_digits(digits) {
                    lemma_dec_val_prefix_le(digits, i - start + 1);
                    lemma_dec_val_nonneg(digits);
                    assert(dec_val(digits) >= dec_val(digits.take(i - start + 1)));
                    assert(dec_val(digits) > 0x8000000000000000);
                    let sv = int_sign(s@);
                    let dv = dec_val(digits);
                    assert(sv * dv == dv || sv * dv == -dv) by (nonlinear_arith)
                        requires
                            sv == 1 || sv == -1,
                    ;
                    assert(parsed_i64(s@) is None);
                } else {
                    assert(parsed_i64(s@) is None);
                }
            }
            return None;
        }
        mag = new_mag;
        i = i + 1;
    }
    proof {
        assert(s@.skip(0) =~= s@);
        assert(digits == int_payload(s@));
        assert(digits.take(i - start) =~= digits);
        lemma_dec_val_nonneg(digits);
    }
    if negative {
        if mag == 0x8000000000000000 {
            Some(i64::MIN)
        } else {
            Some(-((mag as u64) as i64))
        }
    } else {
        if mag > 0x7fffffffffffffff {
            None
        } else {
            Some((mag as u64) as i64)
        }
    }
}

// ---------------------------------------------------------------------------
// Whitespace trimming and label-sigil stripping.
// ---------------------------------------------------------------------------

/// An ASCII whitespace byte.
pub open spec fn is_ws(c: u8) -> bool {
    c == 32 || (9 <= c && c <= 13)
}

/// The payload without leading and trailing ASCII whitespace.
pub open spec fn trim_spec(s: Seq<u8>) -> Seq<u8>
    decreases s.len(),
{
    if s.len() == 0 {
        s
    } else if is_ws(s[0]) {
        trim_spec(s.skip(1))
    } else if is_ws(s[s.len() - 1]) {
        trim_spec(s.take(s.len() - 1))
    } else {
        s
    }
}

/// A label without its leading sigils.
pub open spec fn strip_label_sigils(s: Seq<u8>) -> Seq<u8>
    decreases s.len(),
{
    if s.len() > 0 && s[0] == crate::LABEL_SIGIL {
        strip_label_sigils(s.skip(1))
    } else {
        s
    }
}

/// Trim ASCII whitespace from both ends of a payload.
pub fn trim_bytes(s: &Vec<u8>) -> (r: Vec<u8>)
    ensures
        r@ == trim_spec(s@),
{
    let mut start: usize = 0;
    proof {
        assert(s@.skip(0) =~= s@);
    }
    while start < s.len() && (s[start] == 32 || (9 <= s[start] && s[start] <= 13))
        invariant
            start <= s.len(),
            trim_spec(s@) == trim_spec(s@.skip(start as int)),
        decreases s.len() - start,
    {
        proof {
            assert(s@.skip(start as int).skip(1) =~= s@.skip(start as int + 1));
        }
        start = start + 1;
    }
    let mut end: usize = s.len();
    proof {
        assert(s@.skip(start as int).take(s@.len() - start as int) =~= s@.skip(start as int));
    }
    while end > start && (s[end - 1] == 32 || (9 <= s[end - 1] && s[end - 1] <= 13))
        invariant
            start <= end <= s.len(),
            trim_spec(s@) == trim_spec(s@.skip(start as int)),
            start < s@.len() ==> !is_ws(s@[start as int]),
            trim_spec(s@.skip(start as int)) == trim_spec(
                s@.skip(start as int).take(end - start as int),
            ),
        decreases end,
    {
        proof {
            let t = s@.skip(start as int).take(end - start as int);
            assert(t[0] == s@[start as int]);
            assert(t[t.len() - 1] == s@[end - 1]);
            assert(t.take(t.len() - 1) =~= s@.skip(start as int).take(end - 1 - start as int));
        }
        end = end - 1;
    }
    let mut r: Vec<u8> = Vec::new();
    let mut i: usize = start;
    while i < end
        invariant
            start <= i <= end <= s.len(),
            r@ == s@.subrange(start as int, i as int),
        decreases end - i,
    {
        r.push(s[i]);
        i = i + 1;
        proof {
            assert(r@ =~= s@.subrange(start as int, i as int));
        }
    }
    proof {
        let t = s@.skip(start as int).take(end - start as int);
        assert(t =~= s@.subrange(start as int, end as int));
        if t.len() > 0 {
            assert(t[0] == s@[start as int]);
            assert(t[t.len() - 1] == s@[end - 1]);
            assert(trim_spec(t) == t);
        } else {
            assert(trim_spec(t) =~= t);
        }
    }
    r
}

/// Copy a label without its leading sigils.
pub fn strip_sigils(s: &Vec<u8>) -> (r: Vec<u8>)
    ensures
        r@ == strip_label_sigils(s@),
{
    let mut start: usize = 0;
    proof {
        assert(s@.skip(0) =~= s@);
    }
    while start < s.len() && s[start] == crate::LABEL_SIGIL
        invariant
            start <= s.len(),
            strip_label_sigils(s@) == strip_label_sigils(s@.skip(start as int)),
        decreases s.len() - start,
    {
        proof {
            assert(s@.skip(start as int).skip(1) =~= s@.skip(start as int + 1));
        }
        start = start + 1;
    }
    let mut r: Vec<u8> = Vec::new();
    let mut i: usize = start;
    while i < s.len()
        invariant
            start <= i <= s.len(),
            r@ == s@.subrange(start as int, i as int),
        decreases s.len() - i,
    {
        r.push(s[i]);
        i = i + 1;
        proof {
            assert(r@ =~= s@.subrange(start as int, i as int));
        }
    }
    proof {
        assert(s@.skip(start as int) =~= s@.subrange(start as int, s@.len() as int));
        assert(strip_label_sigils(s@.skip(start as int)) == s@.skip(start as int));
    }
    r
}

// ---------------------------------------------------------------------------
// Content classification.
// ---------------------------------------------------------------------------

/// The fallback type `application/octet-stream`.
pub open spec fn octet_stream() -> Seq<u8> {
    seq![
        97u8,
        112u8,
        112u8,
        108u8,
        105u8,
        99u8,
        97u8,
        116u8,
        105u8,
        111u8,
        110u8,
        47u8,
        111u8,
        99u8,
        116u8,
        101u8,
        116u8,
        45u8,
        115u8,
        116u8,
        114u8,
        101u8,
        97u8,
        109u8,
    ]
}

/// The fixed type of a stored redirect target, `text/uri-list`.
pub open spec fn uri_list_mime() -> Seq<u8> {
    seq![116u8, 101u8, 120u8, 116u8, 47u8, 117u8, 114u8, 105u8, 45u8, 108u8, 105u8, 115u8, 116u8]
}

/// The type an item gets from a sniffer outcome: the sniffed type when one
/// non-empty answer came back, the binary fallback otherwise.
pub open spec fn mime_from_sniff(sniff: Option<Seq<u8>>) -> Seq<u8> {
    match sniff {
        Some(s) => if s.len() > 0 {
            s
        } else {
            octet_stream()
        },
        None => octet_stream(),
    }
}

/// Relies on magic::Cookie (libmagic) to sniff a MIME type from the bytes
/// alone; the answer depends on the magic database on this machine, so
/// nothing is assumed of it, and any failure comes back as None.
#[verifier::external_body]
fn sniff_mime(data: &Vec<u8>) -> (r: Option<Vec<u8>>) {
    let cookie = match magic::Cookie::open(magic::cookie::Flags::MIME) {
        Ok(c) => c,
        Err(_) => return None,
    };
    let cookie = match cookie.load(&Default::default()) {
        Ok(c) => c,
        Err(_) => return None,
    };
    match cookie.buffer(data.as_slice()) {
        Ok(s) => Some(s.into_bytes()),
        Err(_) => None,
    }
}

/// What mime_guess knows for a MIME type, named: the first known filename
/// extension, a lookup in a fixed table.
pub uninterp spec fn ext_of(mime: Seq<u8>) -> Option<Seq<u8>>;

/// Relies on mime_guess::get_mime_extensions_str: the known extensions of a
/// MIME type, a fixed table; the first one is returned, if any.
#[verifier::external_body]
fn mime_extension(mime: &Vec<u8>) -> (r: Option<Vec<u8>>)
    ensures
        r is Some <==> ext_of(mime@) is Some,
        r matches Some(e) ==> ext_of(mime@) matches Some(x) && e@ == x,
{
    let s = std::str::from_utf8(mime.as_slice()).ok()?;
    let exts = mime_guess::get_mime_extensions_str(s)?;
    Some(exts.first()?.as_bytes().to_vec())
}

/// Classify a buffer: the sniffed type, or the binary fallback when the
/// sniffer fails or answers nothing.
pub fn classify(data: &Vec<u8>) -> (r: (Vec<u8>, Ghost<Option<Seq<u8>>>))
    ensures
        r.0@ == mime_from_sniff(r.1@),
        r.0@.len() > 0,
{
    let sniffed = sniff_mime(data);
    match sniffed {
        Some(m) => {
            if m.len() > 0 {
                let ghost s = m@;
                (m, Ghost(Some(s)))
            } else {
                (octet_stream_bytes(), Ghost(Some(m@)))
            }
        },
        None => (octet_stream_bytes(), Ghost(None)),
    }
}

/// The literal `application/octet-stream`.
fn octet_stream_bytes() -> (r: Vec<u8>)
    ensures
        r@ == octet_stream(),
{
    let r: Vec<u8> = vec![
        97, 112, 112, 108, 105, 99, 97, 116, 105, 111, 110, 47, 111, 99, 116, 101, 116, 45, 115,
        116, 114, 101, 97, 109,
    ];
    proof {
        assert(r@ =~= octet_stream());
    }
    r
}

/// The literal `text/uri-list`.
fn uri_list_bytes() -> (r: Vec<u8>)
    ensures
        r@ == uri_list_mime(),
{
    let r: Vec<u8> = vec![116, 101, 120, 116, 47, 117, 114, 105, 45, 108, 105, 115, 116];
    proof {
        assert(r@ =~= uri_list_mime());
    }
    r
}

// ---------------------------------------------------------------------------
// The transition: one field folded into a partially-built item.
// ---------------------------------------------------------------------------

/// What one field does to the item being built. `sniff` stands for the
/// classifier's answer on the field's payload; it is read only when a
/// non-empty content payload is accepted.
pub open spec fn step_spec(
    m: crate::item::ItemModel,
    f: FieldModel,
    sniff: Option<Seq<u8>>,
    salt: Seq<u8>,
    now: int,
) -> Result<crate::item::ItemModel, IngestError> {
    match field_kind_of(f.name) {
        FieldKind::Content => {
            if m.is_url || f.data.len() == 0 {
                Ok(m)
            } else {
                Ok(
                    crate::item::ItemModel {
                        content: f.data,
                        digest: crate::codec::digest_spec(f.data, salt),
                        filename: match f.filename {
                            Some(n) => n,
                            None => Seq::empty(),
                        },
                        mimetype: mime_from_sniff(sniff),
                        ..m
                    },
                )
            }
        },
        FieldKind::UrlField => {
            if m.content.len() == 0 || m.is_url {
                if f.data.len() == 0 {
                    Ok(m)
                } else {
                    let t = trim_spec(f.data);
                    Ok(
                        crate::item::ItemModel {
                            content: t,
                            is_url: true,
                            digest: crate::codec::digest_spec(t, salt),
                            mimetype: uri_list_mime(),
                            ..m
                        },
                    )
                }
            } else {
                Err(IngestError::MixedContentAndUrl)
            }
        },
        FieldKind::Destruct => {
            if f.data.len() == 0 {
                Ok(m)
            } else {
                match bool_of(f.data) {
                    Some(b) => Ok(crate::item::ItemModel { destruct: b, ..m }),
                    None => Err(IngestError::BadBool),
                }
            }
        },
        FieldKind::Private => {
            if f.data.len() == 0 {
                Ok(m)
            } else {
                match bool_of(f.data) {
                    Some(b) => Ok(crate::item::ItemModel { private: b, ..m }),
                    None => Err(IngestError::BadBool),
                }
            }
        },
        FieldKind::SunsetField => {
            if f.data.len() == 0 {
                Ok(m)
            } else {
                match parsed_i64(f.data) {
                    Some(mins) => {
                        let ts = now + mins * 60;
                        if -0x8000000000000000 <= ts && ts <= 0x7fffffffffffffff {
                            Ok(crate::item::ItemModel { sunset: Some(ts), ..m })
                        } else {
                            Err(IngestError::SunsetOutOfRange)
                        }
                    },
                    None => Err(IngestError::BadInt),
                }
            }
        },
        FieldKind::Label => {
            if f.data.len() == 0 {
                Ok(m)
            } else if f.data[0] == crate::LABEL_SIGIL {
                Ok(crate::item::ItemModel { label: f.data, ..m })
            } else {
                Ok(crate::item::ItemModel { label: seq![crate::LABEL_SIGIL] + f.data, ..m })
            }
        },
        FieldKind::Unknown => Err(IngestError::UnknownField),
    }
}

/// Fold one field into the item. The ghost half of the result stands for the
/// classifier's answer, so that the caller can name the transition taken.
pub fn apply_field(item: &mut crate::item::Item, f: &RawField, salt: &Vec<u8>, now: i64) -> (r: (
    Result<(), IngestError>,
    Ghost<Option<Seq<u8>>>,
))
    ensures
        match r.0 {
            Ok(u) => step_spec(old(item)@, f@, r.1@, salt@, now as int) == Ok::<
                crate::item::ItemModel,
                IngestError,
            >(final(item)@),
            Err(e) => step_spec(old(item)@, f@, r.1@, salt@, now as int) == Err::<
                crate::item::ItemModel,
                IngestError,
            >(e) && final(item)@ == old(item)@,
        },
{
    match classify_name(&f.name) {
        FieldKind::Content => {
            if item.is_url || f.data.len() == 0 {
                (Ok(()), Ghost(None))
            } else {
                let (mime, sniff) = classify(&f.data);
                item.content = crate::codec::copy_bytes(&f.data);
                item.digest = crate::codec::digest_of(&f.data, salt);
                item.filename = match &f.filename {
                    Some(n) => crate::codec::copy_bytes(n),
                    None => Vec::new(),
                };
                item.mimetype = mime;
                proof {
                    assert(step_spec(old(item)@, f@, sniff@, salt@, now as int) matches Ok(m2)
                        && m2 =~= item@);
                }
                (Ok(()), sniff)
            }
        },
        FieldKind::UrlField => {
            if item.content.len() == 0 || item.is_url {
                if f.data.len() == 0 {
                    (Ok(()), Ghost(None))
                } else {
                    let t = trim_bytes(&f.data);
                    item.digest = crate::codec::digest_of(&t, salt);
                    item.mimetype = uri_list_bytes();
                    item.content = t;
                    item.is_url = true;
                    proof {
                        assert(step_spec(old(item)@, f@, None, salt@, now as int) matches Ok(m2)
                            && m2 =~= item@);
                    }
                    (Ok(()), Ghost(None))
                }
            } else {
                (Err(IngestError::MixedContentAndUrl), Ghost(None))
            }
        },
        FieldKind::Destruct => {
            if f.data.len() == 0 {
                (Ok(()), Ghost(None))
            } else {
                match parse_bool(&f.data) {
                    Some(b) => {
                        item.destruct = b;
                        proof {
                            assert(step_spec(old(item)@, f@, None, salt@, now as int) matches Ok(
                                m2,
                            ) && m2 =~= item@);
                        }
                        (Ok(()), Ghost(None))
                    },
                    None => (Err(IngestError::BadBool), Ghost(None)),
                }
            }
        },
        FieldKind::Private => {
            if f.data.len() == 0 {
                (Ok(()), Ghost(None))
            } else {
                match parse_bool(&f.data) {
                    Some(b) => {
                        item.private = b;
                        proof {
                            assert(step_spec(old(item)@, f@, None, salt@, now as int) matches Ok(
                                m2,
                            ) && m2 =~= item@);
                        }
                        (Ok(()), Ghost(None))
                    },
                    None => (Err(IngestError::BadBool), Ghost(None)),
                }
            }
        },
        FieldKind::SunsetField => {
            if f.data.len() == 0 {
                (Ok(()), Ghost(None))
            } else {
                match parse_i64(&f.data) {
                    Some(mins) => {
                        let ts_wide: i128 = (now as i128) + (mins as i128) * 60;
                        if -0x8000000000000000i128 <= ts_wide && ts_wide <= 0x7fffffffffffffffi128 {
                            item.sunset = Some(ts_wide as i64);
                            proof {
                                assert(step_spec(old(item)@, f@, None, salt@, now as int) matches Ok(
                                    m2,
                                ) && m2 =~= item@);
                            }
                            (Ok(()), Ghost(None))
                        } else {
                            (Err(IngestError::SunsetOutOfRange), Ghost(None))
                        }
                    },
                    None => (Err(IngestError::BadInt), Ghost(None)),
                }
            }
        },
        FieldKind::Label => {
            if f.data.len() == 0 {
                (Ok(()), Ghost(None))
            } else if f.data[0] == crate::LABEL_SIGIL {
                item.label = crate::codec::copy_bytes(&f.data);
                proof {
                    assert(step_spec(old(item)@, f@, None, salt@, now as int) matches Ok(m2)
                        && m2 =~= item@);
                }
                (Ok(()), Ghost(None))
            } else {
                let mut label: Vec<u8> = Vec::new();
                label.push(crate::LABEL_SIGIL);
                crate::item::append_bytes(&mut label, &f.data);
                item.label = label;
                proof {
                    assert(seq![crate::LABEL_SIGIL] + f@.data =~= item@.label);
                    assert(step_spec(old(item)@, f@, None, salt@, now as int) matches Ok(m2)
                        && m2 =~= item@);
                }
                (Ok(()), Ghost(None))
            }
        },
        FieldKind::Unknown => (Err(IngestError::UnknownField), Ghost(None)),
    }
}

// ---------------------------------------------------------------------------
// The whole request: a fold over the fields, then finalization.
// ---------------------------------------------------------------------------

/// The models of a sequence of raw fields.
pub open spec fn views_of(fs: Seq<RawField>) -> Seq<FieldModel> {
    fs.map_values(|f: RawField| f@)
}

/// Fold the fields into the item, stopping at the first rejection. `sniffs`
/// stands for the classifier's answers, one per field.
pub open spec fn fold_spec(
    m: crate::item::ItemModel,
    fs: Seq<FieldModel>,
    sniffs: Seq<Option<Seq<u8>>>,
    salt: Seq<u8>,
    now: int,
) -> Result<crate::item::ItemModel, IngestError>
    decreases fs.len(),
{
    if fs.len() == 0 {
        Ok(m)
    } else {
        match step_spec(m, fs[0], sniffs[0], salt, now) {
            Ok(m2) => fold_spec(m2, fs.skip(1), sniffs.skip(1), salt, now),
            Err(e) => Err(e),
        }
    }
}

/// Unrolling a fold at its back.
pub proof fn lemma_fold_snoc(
    m: crate::item::ItemModel,
    fs: Seq<FieldModel>,
    sniffs: Seq<Option<Seq<u8>>>,
    f: FieldModel,
    o: Option<Seq<u8>>,
    salt: Seq<u8>,
    now: int,
)
    requires
        fs.len() == sniffs.len(),
    ensures
        fold_spec(m, fs.push(f), sniffs.push(o), salt, now) == (match fold_spec(
            m,
            fs,
            sniffs,
            salt,
            now,
        ) {
            Ok(m2) => step_spec(m2, f, o, salt, now),
            Err(e) => Err(e),
        }),
    decreases fs.len(),
{
    if fs.len() == 0 {
        assert(fs.push(f)[0] == f);
        assert(sniffs.push(o)[0] == o);
        assert(fs.push(f).skip(1) =~= fs);
        assert(sniffs.push(o).skip(1) =~= sniffs);
        assert(fold_spec(m, fs, sniffs, salt, now) == Ok::<crate::item::ItemModel, IngestError>(
            m,
        ));
        match step_spec(m, f, o, salt, now) {
            Ok(m2) => {
                assert(fold_spec(m2, fs.push(f).skip(1), sniffs.push(o).skip(1), salt, now)
                    == Ok::<crate::item::ItemModel, IngestError>(m2));
                assert(fold_spec(m, fs.push(f), sniffs.push(o), salt, now) == Ok::<
                    crate::item::ItemModel,
                    IngestError,
                >(m2));
            },
            Err(e) => {
                assert(fold_spec(m, fs.push(f), sniffs.push(o), salt, now) == Err::<
                    crate::item::ItemModel,
                    IngestError,
                >(e));
            },
        }
    } else {
        assert(fs.push(f)[0] == fs[0]);
        assert(sniffs.push(o)[0] == sniffs[0]);
        assert(fs.push(f).skip(1) =~= fs.skip(1).push(f));
        assert(sniffs.push(o).skip(1) =~= sniffs.skip(1).push(o));
        match step_spec(m, fs[0], sniffs[0], salt, now) {
            Ok(m2) => {
                lemma_fold_snoc(m2, fs.skip(1), sniffs.skip(1), f, o, salt, now);
                assert(fold_spec(m, fs.push(f), sniffs.push(o), salt, now) == fold_spec(
                    m2,
                    fs.skip(1).push(f),
                    sniffs.skip(1).push(o),
                    salt,
                    now,
                ));
                assert(fold_spec(m, fs, sniffs, salt, now) == fold_spec(
                    m2,
                    fs.skip(1),
                    sniffs.skip(1),
                    salt,
                    now,
                ));
            },
            Err(e) => {
                assert(fold_spec(m, fs.push(f), sniffs.push(o), salt, now) == Err::<
                    crate::item::ItemModel,
                    IngestError,
                >(e));
            },
        }
    }
}

/// A fold over a concatenation runs the first part, then the second.
pub proof fn lemma_fold_append(
    m: crate::item::ItemModel,
    fs1: Seq<FieldModel>,
    sn1: Seq<Option<Seq<u8>>>,
    fs2: Seq<FieldModel>,
    sn2: Seq<Option<Seq<u8>>>,
    salt: Seq<u8>,
    now: int,
)
    requires
        fs1.len() == sn1.len(),
        fs2.len() == sn2.len(),
    ensures
        fold_spec(m, fs1 + fs2, sn1 + sn2, salt, now) == (match fold_spec(
            m,
            fs1,
            sn1,
            salt,
            now,
        ) {
            Ok(m2) => fold_spec(m2, fs2, sn2, salt, now),
            Err(e) => Err(e),
        }),
    decreases fs1.len(),
{
    if fs1.len() == 0 {
        assert(fs1 + fs2 =~= fs2);
        assert(sn1 + sn2 =~= sn2);
    } else {
        assert((fs1 + fs2)[0] == fs1[0]);
        assert((sn1 + sn2)[0] == sn1[0]);
        assert((fs1 + fs2).skip(1) =~= fs1.skip(1) + fs2);
        assert((sn1 + sn2).skip(1) =~= sn1.skip(1) + sn2);
        match step_spec(m, fs1[0], sn1[0], salt, now) {
            Ok(m2) => {
                lemma_fold_append(m2, fs1.skip(1), sn1.skip(1), fs2, sn2, salt, now);
            },
            Err(e) => {},
        }
    }
}

/// After the fold: derive the label from the id when none was supplied, and
/// synthesize a filename when none was derived.
pub open spec fn finalize_spec(m: crate::item::ItemModel) -> crate::item::ItemModel {
    let label = if m.label.len() == 0 {
        crate::codec::label_spec(m.id)
    } else {
        m.label
    };
    let filename = if m.filename.len() == 0 {
        match ext_of(m.mimetype) {
            Some(e) => label + seq![46u8] + e,
            None => strip_label_sigils(label),
        }
    } else {
        m.filename
    };
    crate::item::ItemModel { label: label, filename: filename, ..m }
}

/// A whole create or update request: the fields folded into the seed, then
/// finalization; the first malformed field rejects the request.
pub open spec fn ingest_spec(
    seed: crate::item::ItemModel,
    fs: Seq<FieldModel>,
    sniffs: Seq<Option<Seq<u8>>>,
    salt: Seq<u8>,
    now: int,
) -> Result<crate::item::ItemModel, IngestError> {
    match fold_spec(seed, fs, sniffs, salt, now) {
        Ok(m) => Ok(finalize_spec(m)),
        Err(e) => Err(e),
    }
}

/// Exec and spec outcome agree: same rejection, or same resulting item.
pub open spec fn ingest_matches(
    r: Result<crate::item::Item, IngestError>,
    sp: Result<crate::item::ItemModel, IngestError>,
) -> bool {
    match r {
        Ok(it) => sp == Ok::<crate::item::ItemModel, IngestError>(it@),
        Err(e) => sp == Err::<crate::item::ItemModel, IngestError>(e),
    }
}

/// Fill in a default label and filename.
fn finalize(item: &mut crate::item::Item)
    requires
        old(item)@.id >= 1,
    ensures
        final(item)@ == finalize_spec(old(item)@),
{
    if item.label.len() == 0 {
        item.label = crate::codec::label_of(item.id);
    }
    if item.filename.len() == 0 {
        match mime_extension(&item.mimetype) {
            Some(e) => {
                let mut fname = crate::codec::copy_bytes(&item.label);
                fname.push(46);
                crate::item::append_bytes(&mut fname, &e);
                item.filename = fname;
                proof {
                    assert(item@ =~= finalize_spec(old(item)@));
                }
            },
            None => {
                item.filename = strip_sigils(&item.label);
                proof {
                    assert(item@ =~= finalize_spec(old(item)@));
                }
            },
        }
    } else {
        proof {
            assert(item@ =~= finalize_spec(old(item)@));
        }
    }
}

/// Every transition keeps the id.
pub proof fn lemma_step_preserves_id(
    m: crate::item::ItemModel,
    f: FieldModel,
    sniff: Option<Seq<u8>>,
    salt: Seq<u8>,
    now: int,
)
    ensures
        step_spec(m, f, sniff, salt, now) matches Ok(m2) ==> m2.id == m.id,
{
}

/// Build an item from a seed and an ordered sequence of fields. The result is
/// pinned to the fold for the classifier answers that actually came back.
pub fn ingest(seed: crate::item::Item, fields: &Vec<RawField>, salt: &Vec<u8>, now: i64) -> (r:
    Result<crate::item::Item, IngestError>)
    requires
        seed@.id >= 1,
    ensures
        exists|sniffs: Seq<Option<Seq<u8>>>|
            sniffs.len() == fields@.len() && ingest_matches(
                r,
                #[trigger] ingest_spec(seed@, views_of(fields@), sniffs, salt@, now as int),
            ),
        r matches Ok(it) ==> it@.id == seed@.id,
        r matches Ok(it) ==> it@.label.len() > 0,
{
    let ghost vf = views_of(fields@);
    let mut item = seed;
    let mut i: usize = 0;
    let ghost mut sniffs: Seq<Option<Seq<u8>>> = Seq::empty();
    proof {
        assert(vf.take(0) =~= Seq::<FieldModel>::empty());
    }
    while i < fields.len()
        invariant
            i <= fields@.len(),
            vf == views_of(fields@),
            sniffs.len() == i,
            item@.id == seed@.id,
            seed@.id >= 1,
            fold_spec(seed@, vf.take(i as int), sniffs, salt@, now as int) == Ok::<
                crate::item::ItemModel,
                IngestError,
            >(item@),
        decreases fields@.len() - i,
    {
        let ghost pre = item@;
        let (res, sniff) = apply_field(&mut item, &fields[i], salt, now);
        proof {
            assert(vf[i as int] == fields@[i as int]@);
            assert(vf.take(i + 1) =~= vf.take(i as int).push(vf[i as int]));
            lemma_fold_snoc(
                seed@,
                vf.take(i as int),
                sniffs,
                vf[i as int],
                sniff@,
                salt@,
                now as int,
            );
        }
        match res {
            Ok(()) => {
                proof {
                    lemma_step_preserves_id(pre, vf[i as int], sniff@, salt@, now as int);
                    sniffs = sniffs.push(sniff@);
                }
                i = i + 1;
            },
            Err(e) => {
                proof {
                    let sn_done = sniffs.push(sniff@);
                    let pad = Seq::new((fields@.len() - i - 1) as nat, |j: int| None::<Seq<u8>>);
                    lemma_fold_append(
                        seed@,
                        vf.take(i + 1),
                        sn_done,
                        vf.skip(i + 1),
                        pad,
                        salt@,
                        now as int,
                    );
                    assert(vf.take(i + 1) + vf.skip(i + 1) =~= vf);
                    assert((sn_done + pad).len() == fields@.len());
                    assert(fold_spec(seed@, vf, sn_done + pad, salt@, now as int) == Err::<
                        crate::item::ItemModel,
                        IngestError,
                    >(e));
                    let witness = sn_done + pad;
                    assert(witness.len() == fields@.len() && ingest_matches(
                        Err::<crate::item::Item, IngestError>(e),
                        ingest_spec(seed@, views_of(fields@), witness, salt@, now as int),
                    ));
                }
                return Err(e);
            },
        }
    }
    proof {
        assert(vf.take(fields@.len() as int) =~= vf);
    }
    let ghost folded = item@;
    finalize(&mut item);
    proof {
        if folded.label.len() == 0 {
            crate::codec::lemma_be_bytes_nonempty(folded.id);
            crate::codec::lemma_b64_encode_len_ge(crate::codec::be_bytes_of(folded.id));
        }
        assert(fold_spec(seed@, vf, sniffs, salt@, now as int) == Ok::<
            crate::item::ItemModel,
            IngestError,
        >(folded));
        assert(sniffs.len() == fields@.len() && ingest_matches(
            Ok::<crate::item::Item, IngestError>(item),
            ingest_spec(seed@, views_of(fields@), sniffs, salt@, now as int),
        ));
    }
    Ok(item)
}

// ---------------------------------------------------------------------------
// Laws of ingestion.
// ---------------------------------------------------------------------------

/// A content field with an empty payload is a no-op: content, digest and
/// mimetype stay as they were. A non-empty payload on a blob item always
/// leaves the exact payload as content, its salted digest, and a resolvable
/// (non-empty) mimetype.
pub proof fn lemma_content_field(
    m: crate::item::ItemModel,
    f: FieldModel,
    sniff: Option<Seq<u8>>,
    salt: Seq<u8>,
    now: int,
)
    requires
        field_kind_of(f.name) is Content,
    ensures
        f.data.len() == 0 ==> step_spec(m, f, sniff, salt, now) == Ok::<
            crate::item::ItemModel,
            IngestError,
        >(m),
        !m.is_url && f.data.len() > 0 ==> (step_spec(m, f, sniff, salt, now) matches Ok(m2)
            && m2.content == f.data && m2.digest == crate::codec::digest_spec(f.data, salt)
            && m2.mimetype.len() > 0 && (crate::codec::sha256_of(f.data + salt).len() == 32
            ==> m2.digest.len() == 43)),
{
    if !m.is_url && f.data.len() > 0 {
        if crate::codec::sha256_of(f.data + salt).len() == 32 {
            crate::codec::lemma_b64_encode_len(crate::codec::sha256_of(f.data + salt));
        }
    }
}

/// A url field arriving while the item holds blob content rejects the whole
/// request, wherever in the remaining fields it stands.
pub proof fn lemma_url_after_content_rejected(
    m: crate::item::ItemModel,
    fs: Seq<FieldModel>,
    sniffs: Seq<Option<Seq<u8>>>,
    salt: Seq<u8>,
    now: int,
    j: int,
)
    requires
        fs.len() == sniffs.len(),
        m.content.len() > 0,
        !m.is_url,
        0 <= j < fs.len(),
        field_kind_of(fs[j].name) is UrlField,
    ensures
        fold_spec(m, fs, sniffs, salt, now) is Err,
    decreases fs.len(),
{
    if j == 0 {
        assert(step_spec(m, fs[0], sniffs[0], salt, now) == Err::<
            crate::item::ItemModel,
            IngestError,
        >(IngestError::MixedContentAndUrl));
    } else {
        match step_spec(m, fs[0], sniffs[0], salt, now) {
            Ok(m2) => {
                assert(m2.content.len() > 0 && !m2.is_url);
                assert(fs.skip(1)[j - 1] == fs[j]);
                lemma_url_after_content_rejected(
                    m2,
                    fs.skip(1),
                    sniffs.skip(1),
                    salt,
                    now,
                    j - 1,
                );
            },
            Err(e) => {},
        }
    }
}

/// In one request on an item without prior URL content, a non-empty content
/// field followed by the first url field is rejected: blob and URL semantics
/// cannot be mixed, and nothing comes back to persist.
pub proof fn lemma_content_then_url_rejected(
    seed: crate::item::ItemModel,
    fs: Seq<FieldModel>,
    sniffs: Seq<Option<Seq<u8>>>,
    salt: Seq<u8>,
    now: int,
    i: int,
    j: int,
)
    requires
        fs.len() == sniffs.len(),
        !seed.is_url,
        0 <= i < j < fs.len(),
        field_kind_of(fs[i].name) is Content,
        fs[i].data.len() > 0,
        field_kind_of(fs[j].name) is UrlField,
        forall|k: int| 0 <= k < j ==> !(field_kind_of(#[trigger] fs[k].name) is UrlField),
    ensures
        ingest_spec(seed, fs, sniffs, salt, now) is Err,
    decreases i,
{
    if i == 0 {
        match step_spec(seed, fs[0], sniffs[0], salt, now) {
            Ok(m2) => {
                assert(m2.content == fs[0].data && !m2.is_url);
                assert(fs.skip(1)[j - 1] == fs[j]);
                lemma_url_after_content_rejected(
                    m2,
                    fs.skip(1),
                    sniffs.skip(1),
                    salt,
                    now,
                    j - 1,
                );
            },
            Err(e) => {},
        }
    } else {
        match step_spec(seed, fs[0], sniffs[0], salt, now) {
            Ok(m2) => {
                assert(!(field_kind_of(fs[0].name) is UrlField));
                assert(!m2.is_url);
                assert(fs.skip(1)[i - 1] == fs[i]);
                assert(fs.skip(1)[j - 1] == fs[j]);
                assert(forall|k: int|
                    0 <= k < j - 1 ==> #[trigger] fs.skip(1)[k] == fs[k + 1]);
                lemma_content_then_url_rejected(
                    m2,
                    fs.skip(1),
                    sniffs.skip(1),
                    salt,
                    now,
                    i - 1,
                    j - 1,
                );
            },
            Err(e) => {},
        }
    }
}

/// The fold never changes the id.
pub proof fn lemma_fold_preserves_id(
    m: crate::item::ItemModel,
    fs: Seq<FieldModel>,
    sniffs: Seq<Option<Seq<u8>>>,
    salt: Seq<u8>,
    now: int,
)
    ensures
        fold_spec(m, fs, sniffs, salt, now) matches Ok(m2) ==> m2.id == m.id,
    decreases fs.len(),
{
    if fs.len() > 0 {
        match step_spec(m, fs[0], sniffs[0], salt, now) {
            Ok(m2) => {
                lemma_fold_preserves_id(m2, fs.skip(1), sniffs.skip(1), salt, now);
            },
            Err(e) => {},
        }
    }
}

/// Whatever the fields were, an accepted request always ends with a non-empty
/// label: the client's, or one derived from the positive id.
pub proof fn lemma_ingest_label_nonempty(
    seed: crate::item::ItemModel,
    fs: Seq<FieldModel>,
    sniffs: Seq<Option<Seq<u8>>>,
    salt: Seq<u8>,
    now: int,
)
    requires
        seed.id >= 1,
    ensures
        ingest_spec(seed, fs, sniffs, salt, now) matches Ok(out) ==> out.label.len() > 0,
{
    lemma_fold_preserves_id(seed, fs, sniffs, salt, now);
    match fold_spec(seed, fs, sniffs, salt, now) {
        Ok(m) => {
            if m.label.len() == 0 {
                crate::codec::lemma_be_bytes_nonempty(m.id);
                crate::codec::lemma_b64_encode_len_ge(crate::codec::be_bytes_of(m.id));
            }
        },
        Err(e) => {},
    }
}

} // verus!
