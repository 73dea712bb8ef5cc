//! GnuPG `--with-colons` listings: escaped field decoding, the set of secret
//! fingerprints, and the list of public keys.
use vstd::prelude::*;
use vstd::string::StringSliceAdditionalSpecFns;
use vstd::utf8::{
    char_u32_cast, decode_utf8, encode_scalar, encode_utf8, encode_utf8_decode_utf8,
    encode_utf8_valid_utf8, has_width_1_encoding,
    is_char_boundary, last_continuation_byte, leading_byte_width_1, leading_byte_width_2,
    leading_byte_width_3, leading_byte_width_4, second_last_continuation_byte,
    third_last_continuation_byte, valid_utf8,
};
use crate::text::{
    lemma_lines_concat, free_of, chars_of, chars_range, lemma_chars_deep_view, lemma_split_pieces_free, lines_chars, lines_of,
    split_chars, split_on, string_of,
};

verus! {

broadcast use vstd::string::group_string_axioms;

// ---------------------------------------------------------------------------
// Escaped fields
// ---------------------------------------------------------------------------

/// What `String::from_utf8_lossy` makes of `bytes`.
pub uninterp spec fn utf8_lossy(bytes: Seq<u8>) -> Seq<char>;

/// `String::from_utf8_lossy`: the text of `bytes`, with every invalid
/// sequence replaced by U+FFFD. Stated: the result is `utf8_lossy(bytes)`,
/// and for valid UTF-8 it is the decoded text, as the std documentation says.
#[verifier::external_body]
pub(crate) fn text_from_utf8_lossy(bytes: &[u8]) -> (s: String)
    ensures
        s@ == utf8_lossy(bytes@),
        valid_utf8(bytes@) ==> s@ == decode_utf8(bytes@),
{
    String::from_utf8_lossy(bytes).into_owned()
}

/// The text `String::from_utf8_lossy` makes of `bytes`: the decoded text
/// where they are valid UTF-8, `utf8_lossy(bytes)` otherwise.
pub open spec fn text_of_bytes(bytes: Seq<u8>) -> Seq<char> {
    if valid_utf8(bytes) {
        decode_utf8(bytes)
    } else {
        utf8_lossy(bytes)
    }
}

/// An ASCII hexadecimal digit.
pub open spec fn is_hex_digit(b: u8) -> bool {
    (0x30 <= b <= 0x39) || (0x41 <= b <= 0x46) || (0x61 <= b <= 0x66)
}

/// The value of a hexadecimal digit.
pub open spec fn hex_value(b: u8) -> int {
    if b <= 0x39 {
        b - 0x30
    } else if b <= 0x46 {
        b - 0x41 + 10
    } else {
        b - 0x61 + 10
    }
}

/// The byte written as the two hexadecimal digits `[hi, lo]`, if both are
/// hexadecimal digits.
pub open spec fn hex_pair(hi: u8, lo: u8) -> Option<u8> {
    if is_hex_digit(hi) && is_hex_digit(lo) {
        Some((16 * hex_value(hi) + hex_value(lo)) as u8)
    } else {
        None
    }
}

/// `b` in front of the bytes in `rest`, if there are any.
pub open spec fn prepend(b: u8, rest: Option<Seq<u8>>) -> Option<Seq<u8>> {
    match rest {
        Some(r) => Some(seq![b] + r),
        None => None,
    }
}

/// The bytes of `b` from index `i` on with every backslash escape `\HH`
/// replaced by the byte it denotes. `None` where the two bytes after a
/// backslash do not lie between character boundaries of `b`, so that they
/// cannot be taken out of the text as a slice of their own.
pub open spec fn unescape_from(b: Seq<u8>, i: int) -> Option<Seq<u8>>
    decreases b.len() - i,
{
    if i < 0 || i >= b.len() {
        Some(seq![])
    } else if b[i] == 0x5C && i + 2 < b.len() {
        if !(is_char_boundary(b, i + 1) && is_char_boundary(b, i + 3)) {
            None
        } else {
            match hex_pair(b[i + 1], b[i + 2]) {
                Some(v) => prepend(v, unescape_from(b, i + 3)),
                None => prepend(b[i], unescape_from(b, i + 1)),
            }
        }
    } else {
        prepend(b[i], unescape_from(b, i + 1))
    }
}

/// The escapes of the colon field `field` can be decoded.
pub open spec fn field_decodes(field: Seq<char>) -> bool {
    unescape_from(encode_utf8(field), 0) is Some
}

/// The text of an escaped colon field: escapes decoded, then the bytes read
/// as UTF-8 with invalid sequences replaced.
pub open spec fn colon_field_text(field: Seq<char>) -> Option<Seq<char>> {
    match unescape_from(encode_utf8(field), 0) {
        Some(bytes) => Some(text_of_bytes(bytes)),
        None => None,
    }
}

proof fn lemma_prepend_shift(prefix: Seq<u8>, b: u8, rest: Option<Seq<u8>>)
    ensures
        match prepend(b, rest) {
            Some(r) => Some(prefix + r),
            None => None::<Seq<u8>>,
        } == match rest {
            Some(r) => Some(prefix.push(b) + r),
            None => None::<Seq<u8>>,
        },
{
    if let Some(r) = rest {
        assert(prefix + (seq![b] + r) =~= prefix.push(b) + r);
    }
}

proof fn lemma_scalar_no_backslash(c: char)
    requires
        c != '\\',
    ensures
        forall|i: int|
            0 <= i < encode_scalar(c as u32).len() ==> #[trigger] encode_scalar(c as u32)[i]
                != 0x5C,
{
    let s = c as u32;
    char_u32_cast(c, s);
    assert(s != 0x5C);
    if has_width_1_encoding(s) {
        assert((s & 0x7F) as u8 != 0x5C) by (bit_vector)
            requires
                s <= 0x7F && s != 0x5C,
        ;
        assert(encode_scalar(s)[0] == leading_byte_width_1(s));
    } else {
        let b1 = leading_byte_width_2(s);
        let b2 = leading_byte_width_3(s);
        let b3 = leading_byte_width_4(s);
        let c1 = last_continuation_byte(s);
        let c2 = second_last_continuation_byte(s);
        let c3 = third_last_continuation_byte(s);
        assert(0xC0 | ((s >> 6) & 0x1F) as u8 >= 0x80) by (bit_vector);
        assert(0xE0 | ((s >> 12) & 0x0F) as u8 >= 0x80) by (bit_vector);
        assert(0xF0 | ((s >> 18) & 0x7) as u8 >= 0x80) by (bit_vector);
        assert(0x80 | (s & 0x3F) as u8 >= 0x80) by (bit_vector);
        assert(0x80 | ((s >> 6) & 0x3F) as u8 >= 0x80) by (bit_vector);
        assert(0x80 | ((s >> 12) & 0x3F) as u8 >= 0x80) by (bit_vector);
        assert(b1 >= 0x80 && b2 >= 0x80 && b3 >= 0x80 && c1 >= 0x80 && c2 >= 0x80 && c3 >= 0x80);
    }
}

proof fn lemma_encode_no_backslash(cs: Seq<char>)
    requires
        free_of(cs, '\\'),
    ensures
        forall|i: int| 0 <= i < encode_utf8(cs).len() ==> #[trigger] encode_utf8(cs)[i] != 0x5C,
    decreases cs.len(),
{
    if cs.len() > 0 {
        let rest = cs.drop_first();
        lemma_encode_no_backslash(rest);
        lemma_scalar_no_backslash(cs[0]);
        let head = encode_scalar(cs[0] as u32);
        let all = encode_utf8(cs);
        assert(all == head + encode_utf8(rest));
        assert forall|i: int| 0 <= i < all.len() implies #[trigger] all[i] != 0x5C by {
            if i < head.len() {
                assert(all[i] == head[i]);
            } else {
                assert(all[i] == encode_utf8(rest)[i - head.len()]);
            }
        }
    }
}

proof fn lemma_unescape_plain(b: Seq<u8>, i: int)
    requires
        0 <= i <= b.len(),
        forall|j: int| 0 <= j < b.len() ==> #[trigger] b[j] != 0x5C,
    ensures
        unescape_from(b, i) == Some(b.skip(i)),
    decreases b.len() - i,
{
    if i < b.len() {
        lemma_unescape_plain(b, i + 1);
        assert(seq![b[i]] + b.skip(i + 1) =~= b.skip(i));
    } else {
        assert(b.skip(i) =~= Seq::<u8>::empty());
    }
}

/// Decodes the backslash escapes of a colon field; `None` where decoding
/// would have to cut a character in two. A field without a backslash comes
/// back unchanged.
pub fn try_decode_gpg_colon_field(s: &str) -> (r: Option<String>)
    ensures
        r is Some <==> field_decodes(s@),
        r matches Some(t) ==> colon_field_text(s@) == Some(t@),
        free_of(s@, '\\') ==> (r matches Some(t) && t@ == s@),
{
    let bytes = s.as_bytes();
    let n = bytes.len();
    let mut out: Vec<u8> = Vec::new();
    let mut i: usize = 0;
    let ghost b = bytes@;
    while i < n
        invariant
            n == b.len(),
            b == bytes@,
            b == s.spec_bytes(),
            0 <= i <= n,
            unescape_from(b, 0) == match unescape_from(b, i as int) {
                Some(r) => Some(out@ + r),
                None => None::<Seq<u8>>,
            },
        decreases n - i,
    {
        if bytes[i] == 0x5C && n - i > 2 {
            if !(s.is_char_boundary(i + 1) && s.is_char_boundary(i + 3)) {
                assert(unescape_from(b, i as int) is None);
                proof {
                    if free_of(s@, '\\') {
                        lemma_encode_no_backslash(s@);
                        assert(b[i as int] != 0x5C);
                    }
                }
                return None;
            }
            let hi = bytes[i + 1];
            let lo = bytes[i + 2];
            let v = hex_pair_value(hi, lo);
            match v {
                Some(x) => {
                    proof {
                        lemma_prepend_shift(out@, x, unescape_from(b, i + 3));
                    }
                    out.push(x);
                    i += 3;
                },
                None => {
                    proof {
                        lemma_prepend_shift(out@, b[i as int], unescape_from(b, i + 1));
                    }
                    out.push(bytes[i]);
                    i += 1;
                },
            }
        } else {
            proof {
                lemma_prepend_shift(out@, b[i as int], unescape_from(b, i + 1));
            }
            out.push(bytes[i]);
            i += 1;
        }
    }
    assert(out@ + Seq::<u8>::empty() =~= out@);
    proof {
        if free_of(s@, '\\') {
            lemma_encode_no_backslash(s@);
            lemma_unescape_plain(b, 0);
            assert(b.skip(0) =~= b);
            encode_utf8_valid_utf8(s@);
            encode_utf8_decode_utf8(s@);
        }
    }
    Some(text_from_utf8_lossy(out.as_slice()))
}

/// The byte denoted by the two-byte text `[hi, lo]` read in base 16.
fn hex_pair_value(hi: u8, lo: u8) -> (r: Option<u8>)
    ensures
        r == hex_pair(hi, lo),
{
    let l = hex_digit_value(lo);
    let h = hex_digit_value(hi);
    match (h, l) {
        (Some(x), Some(y)) => Some(16 * x + y),
        _ => None,
    }
}

fn hex_digit_value(b: u8) -> (r: Option<u8>)
    ensures
        r matches Some(v) ==> is_hex_digit(b) && v == hex_value(b) && v < 16,
        r is None ==> !is_hex_digit(b),
{
    if 0x30 <= b && b <= 0x39 {
        Some(b - 0x30)
    } else if 0x41 <= b && b <= 0x46 {
        Some(b - 0x41 + 10)
    } else if 0x61 <= b && b <= 0x66 {
        Some(b - 0x61 + 10)
    } else {
        None
    }
}

/// Decodes the backslash escapes (`\HH`, two hexadecimal digits) of a GnuPG
/// colon field and reads the bytes as UTF-8, replacing invalid sequences.
pub fn decode_gpg_colon_field(s: &str) -> (r: String)
    requires
        field_decodes(s@),
    ensures
        colon_field_text(s@) == Some(r@),
        free_of(s@, '\\') ==> r@ == s@,
{
    match try_decode_gpg_colon_field(s) {
        Some(t) => t,
        None => String::new(),
    }
}

// ---------------------------------------------------------------------------
// Listing lines
// ---------------------------------------------------------------------------

/// Field `i` of a line, or the empty text where the line has fewer fields.
pub open spec fn field_at(fields: Seq<Seq<char>>, i: int) -> Seq<char> {
    if 0 <= i < fields.len() {
        fields[i]
    } else {
        seq![]
    }
}

/// The fields of a listing line.
pub open spec fn fields_of(line: Seq<char>) -> Seq<Seq<char>> {
    split_on(line, ':')
}

/// The record type of a listing line: its first field.
pub open spec fn record_type(line: Seq<char>) -> Seq<char> {
    field_at(fields_of(line), 0)
}

pub open spec fn type_pub() -> Seq<char> {
    seq!['p', 'u', 'b']
}

pub open spec fn type_fpr() -> Seq<char> {
    seq!['f', 'p', 'r']
}

pub open spec fn type_uid() -> Seq<char> {
    seq!['u', 'i', 'd']
}

/// The fingerprint an `fpr` line carries (field 10), if the line is one.
pub open spec fn fpr_of_line(line: Seq<char>) -> Option<Seq<char>> {
    if record_type(line) == type_fpr() {
        Some(field_at(fields_of(line), 9))
    } else {
        None
    }
}

/// The secret-key fingerprints named by the given lines.
pub open spec fn secret_fprs_of_lines(lines: Seq<Seq<char>>) -> Set<Seq<char>>
    decreases lines.len(),
{
    if lines.len() == 0 {
        Set::empty()
    } else {
        let earlier = secret_fprs_of_lines(lines.drop_last());
        match fpr_of_line(lines.last()) {
            Some(f) => if f.len() > 0 {
                earlier.insert(f)
            } else {
                earlier
            },
            None => earlier,
        }
    }
}

/// The non-empty fingerprints of all `fpr` records of a secret-key listing.
pub open spec fn secret_fprs_of(listing: Seq<char>) -> Set<Seq<char>> {
    secret_fprs_of_lines(lines_of(listing))
}

// ---------------------------------------------------------------------------
// Executable helpers for listing lines
// ---------------------------------------------------------------------------

fn is_record_type(fields: &Vec<Vec<char>>, a: char, b: char, c: char) -> (r: bool)
    requires
        fields@.len() >= 1,
    ensures
        r == (field_at(fields.deep_view(), 0) == seq![a, b, c]),
{
    let t = &fields[0];
    proof {
        lemma_chars_deep_view(*t);
    }
    if t.len() == 3 && t[0] == a && t[1] == b && t[2] == c {
        assert(t@ =~= seq![a, b, c]);
        true
    } else {
        false
    }
}

fn field_chars(fields: &Vec<Vec<char>>, i: usize) -> (r: Vec<char>)
    ensures
        r@ == field_at(fields.deep_view(), i as int),
{
    if i < fields.len() {
        let f = &fields[i];
        proof {
            lemma_chars_deep_view(*f);
        }
        chars_range(f, 0, f.len())
    } else {
        Vec::new()
    }
}

fn contains_string(v: &Vec<String>, s: &String) -> (r: bool)
    ensures
        r == v.deep_view().contains(s@),
{
    let mut j: usize = 0;
    while j < v.len()
        invariant
            0 <= j <= v@.len(),
            forall|k: int| 0 <= k < j ==> v.deep_view()[k] != s@,
        decreases v@.len() - j,
    {
        if v[j] == *s {
            assert(v.deep_view()[j as int] == s@);
            return true;
        }
        j += 1;
    }
    false
}

/// The fingerprints of the secret keys in a `--with-colons` secret-key
/// listing: field 10 of every `fpr` record, empty ones left out, each once.
pub fn parse_secret_fprs(s: &str) -> (r: Vec<String>)
    ensures
        r.deep_view().to_set() == secret_fprs_of(s@),
        r.deep_view().no_duplicates(),
{
    let chars = chars_of(s);
    let lines = lines_chars(&chars);
    let mut r: Vec<String> = Vec::new();
    let mut i: usize = 0;
    while i < lines.len()
        invariant
            0 <= i <= lines@.len(),
            lines.deep_view() == lines_of(s@),
            r.deep_view().to_set() == secret_fprs_of_lines(lines.deep_view().take(i as int)),
            r.deep_view().no_duplicates(),
        decreases lines@.len() - i,
    {
        let ghost before = r.deep_view();
        let ghost line = lines.deep_view()[i as int];
        proof {
            lemma_chars_deep_view(lines@[i as int]);
            assert(lines.deep_view().take(i + 1).drop_last() =~= lines.deep_view().take(i as int));
            assert(lines.deep_view().take(i + 1).last() == line);
            lemma_split_pieces_free(line, ':');
        }
        let fields = split_chars(&lines[i], ':');
        if is_record_type(&fields, 'f', 'p', 'r') {
            let f = field_chars(&fields, 9);
            if f.len() > 0 {
                let fs = string_of(&f);
                if !contains_string(&r, &fs) {
                    r.push(fs);
                    proof {
                        let now = r.deep_view();
                        assert(now =~= before.push(fs@));
                        assert forall|x: Seq<char>| now.contains(x) <==> before.contains(x) || x == fs@ by {
                            if before.contains(x) {
                                let k = choose|k: int| 0 <= k < before.len() && before[k] == x;
                                assert(now[k] == x);
                            }
                            if x == fs@ {
                                assert(now[before.len() as int] == x);
                            }
                            if now.contains(x) {
                                let k = choose|k: int| 0 <= k < now.len() && now[k] == x;
                                if k < before.len() {
                                    assert(before[k] == x);
                                }
                            }
                        }
                        assert(now.to_set() =~= before.to_set().insert(fs@));
                    }
                } else {
                    assert(before.to_set().insert(fs@) =~= before.to_set());
                }
            }
        }
        i += 1;
    }
    assert(lines.deep_view().take(lines@.len() as int) =~= lines.deep_view());
    r
}

// ---------------------------------------------------------------------------
// Public keys
// ---------------------------------------------------------------------------

/// A key as the key list shows it.
#[derive(Clone, Debug)]
pub struct Key {
    pub fingerprint: String,
    pub uid: String,
    pub created: String,
    pub expires: String,
    pub key_type: String,
    pub capabilities: String,
    pub secret: bool,
}

/// The mathematical value of a [`Key`].
pub struct KeyView {
    pub fingerprint: Seq<char>,
    pub uid: Seq<char>,
    pub created: Seq<char>,
    pub expires: Seq<char>,
    pub key_type: Seq<char>,
    pub capabilities: Seq<char>,
    pub secret: bool,
}

impl View for Key {
    type V = KeyView;

    open spec fn view(&self) -> KeyView {
        KeyView {
            fingerprint: self.fingerprint@,
            uid: self.uid@,
            created: self.created@,
            expires: self.expires@,
            key_type: self.key_type@,
            capabilities: self.capabilities@,
            secret: self.secret,
        }
    }
}

/// The views of a sequence of keys.
pub open spec fn key_views(keys: Seq<Key>) -> Seq<KeyView> {
    Seq::new(keys.len(), |i: int| keys[i]@)
}

/// The view of an optional key.
pub open spec fn opt_key_view(k: Option<Key>) -> Option<KeyView> {
    match k {
        Some(k) => Some(k@),
        None => None,
    }
}

/// Where a pass over the listing stands: the keys it has finished and the
/// one it is filling in.
pub struct ListingState {
    pub keys: Seq<KeyView>,
    pub current: Option<KeyView>,
}

/// The key a `pub` record opens: its length (field 3), algorithm (field 4),
/// creation (field 6) and expiry (field 7) dates and capabilities (field 12);
/// the user id reads "<length>-bit key" until a `uid` record names one.
pub open spec fn new_key(fields: Seq<Seq<char>>) -> KeyView {
    KeyView {
        fingerprint: seq![],
        uid: field_at(fields, 2) + "-bit key"@,
        created: field_at(fields, 5),
        expires: field_at(fields, 6),
        key_type: field_at(fields, 3),
        capabilities: field_at(fields, 11),
        secret: false,
    }
}

/// The finished keys, with the one being filled in after them.
pub open spec fn flushed(st: ListingState) -> Seq<KeyView> {
    match st.current {
        Some(k) => st.keys.push(k),
        None => st.keys,
    }
}

/// One listing line applied to the pass: `pub` starts a new key, the first
/// `fpr` after it sets the fingerprint (field 10) and whether it is secret,
/// and a `uid` with a non-empty field 10 sets the decoded user id.
pub open spec fn listing_step(st: ListingState, line: Seq<char>, secrets: Set<Seq<char>>) -> ListingState {
    let fields = fields_of(line);
    let t = field_at(fields, 0);
    if t == type_pub() {
        ListingState { keys: flushed(st), current: Some(new_key(fields)) }
    } else if t == type_fpr() {
        match st.current {
            Some(k) => if k.fingerprint.len() == 0 {
                let f = field_at(fields, 9);
                ListingState {
                    keys: st.keys,
                    current: Some(
                        KeyView {
                            fingerprint: f,
                            uid: k.uid,
                            created: k.created,
                            expires: k.expires,
                            key_type: k.key_type,
                            capabilities: k.capabilities,
                            secret: secrets.contains(f),
                        },
                    ),
                }
            } else {
                st
            },
            None => st,
        }
    } else if t == type_uid() {
        match st.current {
            Some(k) => {
                let u = field_at(fields, 9);
                if u.len() == 0 {
                    st
                } else {
                    match colon_field_text(u) {
                        Some(text) => ListingState {
                            keys: st.keys,
                            current: Some(
                                KeyView {
                                    fingerprint: k.fingerprint,
                                    uid: text,
                                    created: k.created,
                                    expires: k.expires,
                                    key_type: k.key_type,
                                    capabilities: k.capabilities,
                                    secret: k.secret,
                                },
                            ),
                        },
                        None => st,
                    }
                }
            },
            None => st,
        }
    } else {
        st
    }
}

/// The pass after the given lines.
pub open spec fn listing_after(lines: Seq<Seq<char>>, secrets: Set<Seq<char>>) -> ListingState
    decreases lines.len(),
{
    if lines.len() == 0 {
        ListingState { keys: seq![], current: None }
    } else {
        listing_step(listing_after(lines.drop_last(), secrets), lines.last(), secrets)
    }
}

/// The keys that have a fingerprint, in order.
pub open spec fn with_fingerprint(keys: Seq<KeyView>) -> Seq<KeyView>
    decreases keys.len(),
{
    if keys.len() == 0 {
        seq![]
    } else {
        let earlier = with_fingerprint(keys.drop_last());
        if keys.last().fingerprint.len() > 0 {
            earlier.push(keys.last())
        } else {
            earlier
        }
    }
}

/// The keys of a `--with-colons` public-key listing.
pub open spec fn public_keys_of(listing: Seq<char>, secrets: Set<Seq<char>>) -> Seq<KeyView> {
    with_fingerprint(flushed(listing_after(lines_of(listing), secrets)))
}

/// Some line among the given ones is a `pub` record.
pub open spec fn opened_in(lines: Seq<Seq<char>>) -> bool
    decreases lines.len(),
{
    if lines.len() == 0 {
        false
    } else {
        opened_in(lines.drop_last()) || record_type(lines.last()) == type_pub()
    }
}

/// The user-id field of `line` is decoded by the pass and cannot be.
pub open spec fn undecodable_uid(open: bool, line: Seq<char>) -> bool {
    let fields = fields_of(line);
    &&& field_at(fields, 0) == type_uid()
    &&& open
    &&& field_at(fields, 9).len() > 0
    &&& !field_decodes(field_at(fields, 9))
}

/// Every user-id field that the pass decodes can be decoded.
pub open spec fn uids_decode(lines: Seq<Seq<char>>) -> bool
    decreases lines.len(),
{
    if lines.len() == 0 {
        true
    } else {
        uids_decode(lines.drop_last()) && !undecodable_uid(opened_in(lines.drop_last()), lines.last())
    }
}

/// Every user-id field of the listing that is decoded can be decoded.
pub open spec fn listing_decodes(listing: Seq<char>) -> bool {
    uids_decode(lines_of(listing))
}

fn new_key_from(fields: &Vec<Vec<char>>) -> (k: Key)
    ensures
        k@ == new_key(fields.deep_view()),
{
    let mut uid = string_of(&field_chars(fields, 2));
    uid.append("-bit key");
    Key {
        fingerprint: String::new(),
        uid,
        created: string_of(&field_chars(fields, 5)),
        expires: string_of(&field_chars(fields, 6)),
        key_type: string_of(&field_chars(fields, 3)),
        capabilities: string_of(&field_chars(fields, 11)),
        secret: false,
    }
}

/// The keys of a `--with-colons` public-key listing; `None` where a user id
/// that would be decoded cannot be.
pub fn try_parse_public_keys(s: &str, secret_fprs: &Vec<String>) -> (r: Option<Vec<Key>>)
    ensures
        r is Some <==> listing_decodes(s@),
        r matches Some(keys) ==> key_views(keys@) == public_keys_of(
            s@,
            secret_fprs.deep_view().to_set(),
        ),
{
    let chars = chars_of(s);
    let lines = lines_chars(&chars);
    let ghost secrets = secret_fprs.deep_view().to_set();
    let ghost ls = lines.deep_view();
    let mut keys: Vec<Key> = Vec::new();
    let mut current: Option<Key> = None;
    let mut safe = true;
    let mut i: usize = 0;
    assert(key_views(keys@) =~= Seq::<KeyView>::empty());
    while i < lines.len()
        invariant
            0 <= i <= lines@.len(),
            ls == lines.deep_view(),
            ls == lines_of(s@),
            secrets == secret_fprs.deep_view().to_set(),
            listing_after(ls.take(i as int), secrets) == (ListingState {
                keys: key_views(keys@),
                current: opt_key_view(current),
            }),
            safe == uids_decode(ls.take(i as int)),
            opened_in(ls.take(i as int)) == current is Some,
        decreases lines@.len() - i,
    {
        let ghost line = ls[i as int];
        let ghost before = ls.take(i as int);
        proof {
            lemma_chars_deep_view(lines@[i as int]);
            assert(ls.take(i + 1).drop_last() =~= before);
            assert(ls.take(i + 1).last() == line);
            lemma_split_pieces_free(line, ':');
        }
        let fields = split_chars(&lines[i], ':');
        if is_record_type(&fields, 'p', 'u', 'b') {
            let ghost old_keys = key_views(keys@);
            match current {
                Some(k) => {
                    keys.push(k);
                    assert(key_views(keys@) =~= old_keys.push(k@));
                },
                None => {},
            }
            current = Some(new_key_from(&fields));
        } else if is_record_type(&fields, 'f', 'p', 'r') {
            current = match current {
                Some(mut k) => {
                    if k.fingerprint.as_str().is_empty() {
                        let f = string_of(&field_chars(&fields, 9));
                        k.secret = contains_string(secret_fprs, &f);
                        k.fingerprint = f;
                    }
                    Some(k)
                },
                None => None,
            };
        } else if is_record_type(&fields, 'u', 'i', 'd') {
            current = match current {
                Some(mut k) => {
                    let u = string_of(&field_chars(&fields, 9));
                    if !u.as_str().is_empty() {
                        match try_decode_gpg_colon_field(u.as_str()) {
                            Some(t) => {
                                k.uid = t;
                            },
                            None => {
                                safe = false;
                            },
                        }
                    }
                    Some(k)
                },
                None => None,
            };
        }
        i += 1;
    }
    assert(ls.take(lines@.len() as int) =~= ls);
    let ghost all = flushed(listing_after(ls, secrets));
    match current {
        Some(k) => {
            let ghost old_keys = key_views(keys@);
            keys.push(k);
            assert(key_views(keys@) =~= old_keys.push(k@));
        },
        None => {},
    }
    if !safe {
        return None;
    }
    let mut out: Vec<Key> = Vec::new();
    let ghost kv = key_views(keys@);
    assert(out@ =~= Seq::<Key>::empty());
    for k in it: keys
        invariant
            kv == key_views(it.seq()),
            kv == all,
            key_views(out@) == with_fingerprint(kv.take(it.index() as int)),
    {
        let ghost j = it.index();
        proof {
            assert(kv.take(j + 1).drop_last() =~= kv.take(j as int));
            assert(kv.take(j + 1).last() == k@);
        }
        if !k.fingerprint.as_str().is_empty() {
            let ghost old_out = key_views(out@);
            out.push(k);
            assert(key_views(out@) =~= old_out.push(k@));
        }
    }
    assert(kv.take(kv.len() as int) =~= kv);
    Some(out)
}

/// The keys of a `--with-colons` public-key listing, in listing order, with
/// `secret` set where the fingerprint is one of `secret_fprs`; records
/// without a fingerprint are left out.
pub fn parse_public_keys(s: &str, secret_fprs: &Vec<String>) -> (r: Vec<Key>)
    requires
        listing_decodes(s@),
    ensures
        key_views(r@) == public_keys_of(s@, secret_fprs.deep_view().to_set()),
{
    match try_parse_public_keys(s, secret_fprs) {
        Some(keys) => keys,
        None => Vec::new(),
    }
}

/// The keys of a public-key listing, marked secret where their fingerprint
/// is among those of the secret-key listing; `None` where a user id that
/// would be decoded cannot be.
pub fn list_keys(public_listing: &str, secret_listing: &str) -> (r: Option<Vec<Key>>)
    ensures
        r is Some <==> listing_decodes(public_listing@),
        r matches Some(keys) ==> key_views(keys@) == public_keys_of(
            public_listing@,
            secret_fprs_of(secret_listing@),
        ),
{
    let secret = parse_secret_fprs(secret_listing);
    try_parse_public_keys(public_listing, &secret)
}

/// A key whose fingerprint is set is marked secret exactly when the
/// fingerprint is among `secrets`.
pub open spec fn secret_mark_agrees(k: KeyView, secrets: Set<Seq<char>>) -> bool {
    k.fingerprint.len() > 0 ==> k.secret == secrets.contains(k.fingerprint)
}

/// Every key of the pass, finished or not, has an agreeing secret mark.
pub open spec fn pass_agrees(st: ListingState, secrets: Set<Seq<char>>) -> bool {
    &&& forall|i: int| 0 <= i < st.keys.len() ==> secret_mark_agrees(#[trigger] st.keys[i], secrets)
    &&& st.current matches Some(k) ==> secret_mark_agrees(k, secrets)
}

proof fn lemma_pass_agrees(lines: Seq<Seq<char>>, secrets: Set<Seq<char>>)
    ensures
        pass_agrees(listing_after(lines, secrets), secrets),
    decreases lines.len(),
{
    if lines.len() > 0 {
        lemma_pass_agrees(lines.drop_last(), secrets);
        let st = listing_after(lines.drop_last(), secrets);
        let next = listing_after(lines, secrets);
        assert forall|i: int| 0 <= i < next.keys.len() implies secret_mark_agrees(
            #[trigger] next.keys[i],
            secrets,
        ) by {
            if i < st.keys.len() {
                assert(next.keys[i] == st.keys[i]);
            }
        }
    }
}

proof fn lemma_with_fingerprint(keys: Seq<KeyView>, secrets: Set<Seq<char>>)
    requires
        forall|i: int| 0 <= i < keys.len() ==> secret_mark_agrees(#[trigger] keys[i], secrets),
    ensures
        forall|i: int|
            0 <= i < with_fingerprint(keys).len() ==> {
                &&& (#[trigger] with_fingerprint(keys)[i]).fingerprint.len() > 0
                &&& with_fingerprint(keys)[i].secret == secrets.contains(
                    with_fingerprint(keys)[i].fingerprint,
                )
            },
    decreases keys.len(),
{
    if keys.len() > 0 {
        lemma_with_fingerprint(keys.drop_last(), secrets);
        let earlier = with_fingerprint(keys.drop_last());
        assert forall|i: int| 0 <= i < with_fingerprint(keys).len() implies {
            &&& (#[trigger] with_fingerprint(keys)[i]).fingerprint.len() > 0
            &&& with_fingerprint(keys)[i].secret == secrets.contains(
                with_fingerprint(keys)[i].fingerprint,
            )
        } by {
            if i < earlier.len() {
                assert(with_fingerprint(keys)[i] == earlier[i]);
            } else {
                assert(secret_mark_agrees(keys[keys.len() - 1], secrets));
            }
        }
    }
}

/// Every key read from a public-key listing has a fingerprint, and is marked
/// secret exactly when that fingerprint is among the secret fingerprints.
pub proof fn lemma_listed_keys_have_fingerprints(listing: Seq<char>, secrets: Set<Seq<char>>)
    ensures
        forall|i: int|
            0 <= i < public_keys_of(listing, secrets).len() ==> {
                &&& (#[trigger] public_keys_of(listing, secrets)[i]).fingerprint.len() > 0
                &&& public_keys_of(listing, secrets)[i].secret == secrets.contains(
                    public_keys_of(listing, secrets)[i].fingerprint,
                )
            },
{
    let st = listing_after(lines_of(listing), secrets);
    lemma_pass_agrees(lines_of(listing), secrets);
    let all = flushed(st);
    assert forall|i: int| 0 <= i < all.len() implies secret_mark_agrees(#[trigger] all[i], secrets) by {
        if i < st.keys.len() {
            assert(all[i] == st.keys[i]);
        }
    }
    lemma_with_fingerprint(all, secrets);
}

/// Every fingerprint read from a secret-key listing is non-empty.
pub proof fn lemma_secret_fprs_non_empty(listing: Seq<char>)
    ensures
        forall|f: Seq<char>| secret_fprs_of(listing).contains(f) ==> f.len() > 0,
{
    lemma_secret_fprs_lines_non_empty(lines_of(listing));
}

proof fn lemma_secret_fprs_lines_non_empty(lines: Seq<Seq<char>>)
    ensures
        forall|f: Seq<char>| secret_fprs_of_lines(lines).contains(f) ==> f.len() > 0,
    decreases lines.len(),
{
    if lines.len() > 0 {
        lemma_secret_fprs_lines_non_empty(lines.drop_last());
        let earlier = secret_fprs_of_lines(lines.drop_last());
        assert forall|f: Seq<char>| secret_fprs_of_lines(lines).contains(f) implies f.len() > 0 by {
            if !earlier.contains(f) {
                assert(fpr_of_line(lines.last()) == Some(f));
            }
        }
    } else {
        assert forall|f: Seq<char>| secret_fprs_of_lines(lines).contains(f) implies f.len() > 0 by {
            assert(secret_fprs_of_lines(lines) == Set::<Seq<char>>::empty());
        }
    }
}

/// The two keys agree on every field but the secret mark.
pub open spec fn same_but_secret(a: KeyView, b: KeyView) -> bool {
    &&& a.fingerprint == b.fingerprint
    &&& a.uid == b.uid
    &&& a.created == b.created
    &&& a.expires == b.expires
    &&& a.key_type == b.key_type
    &&& a.capabilities == b.capabilities
}

/// The two key lists agree key by key on every field but the secret mark.
pub open spec fn keys_same_but_secret(a: Seq<KeyView>, b: Seq<KeyView>) -> bool {
    &&& a.len() == b.len()
    &&& forall|i: int| 0 <= i < a.len() ==> same_but_secret(#[trigger] a[i], b[i])
}

proof fn lemma_pass_same_but_secret(
    lines: Seq<Seq<char>>,
    sa: Set<Seq<char>>,
    sb: Set<Seq<char>>,
)
    ensures
        keys_same_but_secret(listing_after(lines, sa).keys, listing_after(lines, sb).keys),
        listing_after(lines, sa).current is Some <==> listing_after(lines, sb).current is Some,
        listing_after(lines, sa).current matches Some(ka) ==> same_but_secret(
            ka,
            listing_after(lines, sb).current->0,
        ),
    decreases lines.len(),
{
    if lines.len() > 0 {
        lemma_pass_same_but_secret(lines.drop_last(), sa, sb);
        let a = listing_after(lines.drop_last(), sa);
        let b = listing_after(lines.drop_last(), sb);
        let na = listing_after(lines, sa);
        let nb = listing_after(lines, sb);
        assert forall|i: int| 0 <= i < na.keys.len() implies same_but_secret(
            #[trigger] na.keys[i],
            nb.keys[i],
        ) by {
            if i < a.keys.len() {
                assert(na.keys[i] == a.keys[i] && nb.keys[i] == b.keys[i]);
            }
        }
    }
}

proof fn lemma_with_fingerprint_same(a: Seq<KeyView>, b: Seq<KeyView>)
    requires
        keys_same_but_secret(a, b),
    ensures
        keys_same_but_secret(with_fingerprint(a), with_fingerprint(b)),
    decreases a.len(),
{
    if a.len() > 0 {
        assert(keys_same_but_secret(a.drop_last(), b.drop_last())) by {
            assert forall|i: int| 0 <= i < a.len() - 1 implies same_but_secret(
                #[trigger] a.drop_last()[i],
                b.drop_last()[i],
            ) by {
                assert(same_but_secret(a[i], b[i]));
            }
        }
        lemma_with_fingerprint_same(a.drop_last(), b.drop_last());
        assert(same_but_secret(a[a.len() - 1], b[b.len() - 1]));
        let ea = with_fingerprint(a.drop_last());
        let eb = with_fingerprint(b.drop_last());
        let wa = with_fingerprint(a);
        let wb = with_fingerprint(b);
        assert forall|i: int| 0 <= i < wa.len() implies same_but_secret(#[trigger] wa[i], wb[i]) by {
            if i < ea.len() {
                assert(wa[i] == ea[i] && wb[i] == eb[i]);
            }
        }
    }
}

/// The secret fingerprints decide only the secret marks: read with two
/// secret sets, a listing gives the same keys in the same order, field by
/// field, and each key is marked secret exactly when its fingerprint is in
/// the set it was read with.
pub proof fn lemma_secret_set_only_marks(
    listing: Seq<char>,
    sa: Set<Seq<char>>,
    sb: Set<Seq<char>>,
)
    ensures
        keys_same_but_secret(public_keys_of(listing, sa), public_keys_of(listing, sb)),
        forall|i: int|
            0 <= i < public_keys_of(listing, sa).len() ==> (#[trigger] public_keys_of(
                listing,
                sa,
            )[i]).secret == sa.contains(public_keys_of(listing, sa)[i].fingerprint),
{
    let lines = lines_of(listing);
    lemma_pass_same_but_secret(lines, sa, sb);
    let a = listing_after(lines, sa);
    let b = listing_after(lines, sb);
    let fa = flushed(a);
    let fb = flushed(b);
    assert forall|i: int| 0 <= i < fa.len() implies same_but_secret(#[trigger] fa[i], fb[i]) by {
        if i < a.keys.len() {
            assert(fa[i] == a.keys[i] && fb[i] == b.keys[i]);
        }
    }
    lemma_with_fingerprint_same(fa, fb);
    lemma_listed_keys_have_fingerprints(listing, sa);
}

proof fn lemma_step_prefix(
    prefix: Seq<KeyView>,
    st: ListingState,
    line: Seq<char>,
    secrets: Set<Seq<char>>,
)
    ensures
        listing_step(ListingState { keys: prefix + st.keys, current: st.current }, line, secrets)
            == (ListingState {
            keys: prefix + listing_step(st, line, secrets).keys,
            current: listing_step(st, line, secrets).current,
        }),
{
    let big = ListingState { keys: prefix + st.keys, current: st.current };
    assert(flushed(big) =~= prefix + flushed(st));
    let l = listing_step(big, line, secrets);
    let r = listing_step(st, line, secrets);
    assert(l.keys =~= prefix + r.keys);
}

proof fn lemma_after_concat(l1: Seq<Seq<char>>, l2: Seq<Seq<char>>, secrets: Set<Seq<char>>)
    requires
        l2.len() > 0,
        record_type(l2[0]) == type_pub(),
    ensures
        listing_after(l1 + l2, secrets) == (ListingState {
            keys: flushed(listing_after(l1, secrets)) + listing_after(l2, secrets).keys,
            current: listing_after(l2, secrets).current,
        }),
    decreases l2.len(),
{
    let all = l1 + l2;
    if l2.len() == 1 {
        assert(all.drop_last() =~= l1);
        assert(all.last() == l2[0]);
        assert(l2.drop_last() =~= Seq::<Seq<char>>::empty());
        let e = listing_after(l2.drop_last(), secrets);
        assert(flushed(e) =~= Seq::<KeyView>::empty());
        assert(flushed(listing_after(l1, secrets)) + listing_after(l2, secrets).keys =~= flushed(
            listing_after(l1, secrets),
        ));
    } else {
        let l2p = l2.drop_last();
        assert(all.drop_last() =~= l1 + l2p);
        assert(all.last() == l2.last());
        assert(l2p[0] == l2[0]);
        lemma_after_concat(l1, l2p, secrets);
        let p = flushed(listing_after(l1, secrets));
        lemma_step_prefix(p, listing_after(l2p, secrets), l2.last(), secrets);
    }
}

proof fn lemma_with_fingerprint_concat(a: Seq<KeyView>, b: Seq<KeyView>)
    ensures
        with_fingerprint(a + b) == with_fingerprint(a) + with_fingerprint(b),
    decreases b.len(),
{
    if b.len() == 0 {
        assert(a + b =~= a);
        assert(with_fingerprint(a) + with_fingerprint(b) =~= with_fingerprint(a));
    } else {
        assert((a + b).drop_last() =~= a + b.drop_last());
        assert((a + b).last() == b.last());
        lemma_with_fingerprint_concat(a, b.drop_last());
        let wa = with_fingerprint(a);
        let wb = with_fingerprint(b.drop_last());
        if b.last().fingerprint.len() > 0 {
            assert((wa + wb).push(b.last()) =~= wa + wb.push(b.last()));
        }
    }
}

/// A listing cut just before a `pub` record, after a line ending, gives the
/// keys of the first part followed by those of the second.
pub proof fn lemma_listing_split_before_pub(s1: Seq<char>, s2: Seq<char>, secrets: Set<Seq<char>>)
    requires
        s1.len() == 0 || s1.last() == '\n',
        lines_of(s2).len() > 0,
        record_type(lines_of(s2)[0]) == type_pub(),
    ensures
        public_keys_of(s1 + s2, secrets) == public_keys_of(s1, secrets) + public_keys_of(
            s2,
            secrets,
        ),
{
    lemma_lines_concat(s1, s2);
    let l1 = lines_of(s1);
    let l2 = lines_of(s2);
    lemma_after_concat(l1, l2, secrets);
    let a = listing_after(l1, secrets);
    let b = listing_after(l2, secrets);
    let whole = listing_after(l1 + l2, secrets);
    assert(flushed(whole) =~= flushed(a) + flushed(b));
    lemma_with_fingerprint_concat(flushed(a), flushed(b));
}


// ---------------------------------------------------------------------------
// Where the fields of a listed key come from
// ---------------------------------------------------------------------------

/// The `pub` records among the given lines, in order.
pub open spec fn pub_records(lines: Seq<Seq<char>>) -> Seq<Seq<char>>
    decreases lines.len(),
{
    if lines.len() == 0 {
        seq![]
    } else if record_type(lines.last()) == type_pub() {
        pub_records(lines.drop_last()).push(lines.last())
    } else {
        pub_records(lines.drop_last())
    }
}

/// The key carries the creation date (field 6), expiry date (field 7),
/// algorithm (field 4) and capabilities (field 12) of the record.
pub open spec fn dated_by(k: KeyView, record: Seq<char>) -> bool {
    let fields = fields_of(record);
    &&& k.created == field_at(fields, 5)
    &&& k.expires == field_at(fields, 6)
    &&& k.key_type == field_at(fields, 3)
    &&& k.capabilities == field_at(fields, 11)
}

proof fn lemma_pass_follows_pub_records(lines: Seq<Seq<char>>, secrets: Set<Seq<char>>)
    ensures
        flushed(listing_after(lines, secrets)).len() == pub_records(lines).len(),
        forall|i: int|
            0 <= i < pub_records(lines).len() ==> dated_by(
                #[trigger] flushed(listing_after(lines, secrets))[i],
                pub_records(lines)[i],
            ),
    decreases lines.len(),
{
    if lines.len() > 0 {
        let earlier = lines.drop_last();
        lemma_pass_follows_pub_records(earlier, secrets);
        let st = listing_after(earlier, secrets);
        let now = listing_after(lines, secrets);
        let before = flushed(st);
        let after = flushed(now);
        let recs = pub_records(lines);
        assert(now == listing_step(st, lines.last(), secrets));
        if record_type(lines.last()) == type_pub() {
            assert(after =~= before.push(new_key(fields_of(lines.last()))));
            assert(recs =~= pub_records(earlier).push(lines.last()));
        } else {
            assert(recs =~= pub_records(earlier));
            assert(after.len() == before.len());
            assert forall|i: int| 0 <= i < recs.len() implies dated_by(
                #[trigger] after[i],
                recs[i],
            ) by {
                assert(dated_by(before[i], recs[i]));
                if i < before.len() - 1 || st.current is None {
                    assert(after[i] == before[i]);
                } else {
                    assert(after[i].created == before[i].created);
                    assert(after[i].expires == before[i].expires);
                    assert(after[i].key_type == before[i].key_type);
                    assert(after[i].capabilities == before[i].capabilities);
                }
            }
        }
    }
}

proof fn lemma_with_fingerprint_members(keys: Seq<KeyView>)
    ensures
        forall|j: int|
            0 <= j < with_fingerprint(keys).len() ==> exists|i: int|
                0 <= i < keys.len() && #[trigger] with_fingerprint(keys)[j] == keys[i],
    decreases keys.len(),
{
    if keys.len() > 0 {
        let earlier = keys.drop_last();
        lemma_with_fingerprint_members(earlier);
        let w = with_fingerprint(keys);
        let we = with_fingerprint(earlier);
        assert forall|j: int| 0 <= j < w.len() implies exists|i: int|
            0 <= i < keys.len() && #[trigger] w[j] == keys[i] by {
            if j < we.len() {
                let i = choose|i: int| 0 <= i < earlier.len() && we[j] == earlier[i];
                assert(w[j] == we[j]);
                assert(keys[i] == earlier[i]);
            } else {
                assert(w[j] == keys[keys.len() - 1]);
            }
        }
    }
}

/// Every listed key has the creation and expiry dates, algorithm and
/// capabilities of a `pub` record of the listing: the pass opens one key per
/// `pub` record, in order, and no other record (`fpr`, `uid`, `sub`, ...)
/// changes these fields of the key being read.
pub proof fn lemma_key_dates_come_from_pub_record(listing: Seq<char>, secrets: Set<Seq<char>>)
    ensures
        flushed(listing_after(lines_of(listing), secrets)).len() == pub_records(
            lines_of(listing),
        ).len(),
        forall|i: int|
            0 <= i < pub_records(lines_of(listing)).len() ==> dated_by(
                #[trigger] flushed(listing_after(lines_of(listing), secrets))[i],
                pub_records(lines_of(listing))[i],
            ),
        forall|j: int|
            0 <= j < public_keys_of(listing, secrets).len() ==> exists|i: int|
                0 <= i < pub_records(lines_of(listing)).len() && dated_by(
                    #[trigger] public_keys_of(listing, secrets)[j],
                    pub_records(lines_of(listing))[i],
                ),
{
    let lines = lines_of(listing);
    lemma_pass_follows_pub_records(lines, secrets);
    let all = flushed(listing_after(lines, secrets));
    lemma_with_fingerprint_members(all);
    let keys = public_keys_of(listing, secrets);
    assert forall|j: int| 0 <= j < keys.len() implies exists|i: int|
        0 <= i < pub_records(lines).len() && dated_by(
            #[trigger] keys[j],
            pub_records(lines)[i],
        ) by {
        let i = choose|i: int| 0 <= i < all.len() && with_fingerprint(all)[j] == all[i];
        assert(dated_by(all[i], pub_records(lines)[i]));
    }
}

/// Some `fpr` record among the lines carries the fingerprint `f` (field 10).
pub open spec fn fpr_in(lines: Seq<Seq<char>>, f: Seq<char>) -> bool {
    exists|l: int| 0 <= l < lines.len() && #[trigger] fpr_of_line(lines[l]) == Some(f)
}

/// The decoded field 10 of a `uid` record, if the line is one.
pub open spec fn uid_of_line(line: Seq<char>) -> Option<Seq<char>> {
    if record_type(line) == type_uid() {
        colon_field_text(field_at(fields_of(line), 9))
    } else {
        None
    }
}

/// Some `uid` record among the lines has the user id `u` in field 10.
pub open spec fn uid_in(lines: Seq<Seq<char>>, u: Seq<char>) -> bool {
    exists|l: int| 0 <= l < lines.len() && #[trigger] uid_of_line(lines[l]) == Some(u)
}

/// The key's fingerprint, if it has one, is that of an `fpr` record of the
/// lines, and its user id is either "<length>-bit key" with the length of
/// the `pub` record (field 3) or that of a `uid` record of the lines.
pub open spec fn named_in(k: KeyView, record: Seq<char>, lines: Seq<Seq<char>>) -> bool {
    &&& (k.fingerprint.len() == 0 || fpr_in(lines, k.fingerprint))
    &&& (k.uid == field_at(fields_of(record), 2) + "-bit key"@ || uid_in(lines, k.uid))
}

proof fn lemma_named_in_longer(k: KeyView, record: Seq<char>, lines: Seq<Seq<char>>, x: Seq<char>)
    requires
        named_in(k, record, lines),
    ensures
        named_in(k, record, lines.push(x)),
{
    let more = lines.push(x);
    if k.fingerprint.len() > 0 {
        let l = choose|l: int| 0 <= l < lines.len() && #[trigger] fpr_of_line(lines[l]) == Some(
            k.fingerprint,
        );
        assert(more[l] == lines[l]);
    }
    if uid_in(lines, k.uid) {
        let l = choose|l: int| 0 <= l < lines.len() && #[trigger] uid_of_line(lines[l]) == Some(
            k.uid,
        );
        assert(more[l] == lines[l]);
    }
}

proof fn lemma_pass_names_from_records(lines: Seq<Seq<char>>, secrets: Set<Seq<char>>)
    ensures
        forall|i: int|
            0 <= i < pub_records(lines).len() ==> named_in(
                #[trigger] flushed(listing_after(lines, secrets))[i],
                pub_records(lines)[i],
                lines,
            ),
    decreases lines.len(),
{
    lemma_pass_follows_pub_records(lines, secrets);
    if lines.len() > 0 {
        let earlier = lines.drop_last();
        let last = lines.last();
        lemma_pass_names_from_records(earlier, secrets);
        lemma_pass_follows_pub_records(earlier, secrets);
        assert(earlier.push(last) =~= lines);
        let st = listing_after(earlier, secrets);
        let now = listing_after(lines, secrets);
        let before = flushed(st);
        let after = flushed(now);
        let recs = pub_records(lines);
        assert(now == listing_step(st, last, secrets));
        assert(lines[lines.len() - 1] == last);
        assert forall|i: int| 0 <= i < recs.len() implies named_in(
            #[trigger] after[i],
            recs[i],
            lines,
        ) by {
            if i < before.len() {
                lemma_named_in_longer(before[i], pub_records(earlier)[i], earlier, last);
            }
            if record_type(last) == type_pub() {
                assert(after =~= before.push(new_key(fields_of(last))));
                assert(recs =~= pub_records(earlier).push(last));
            } else {
                assert(recs =~= pub_records(earlier));
                if i < before.len() - 1 || st.current is None {
                    assert(after[i] == before[i]);
                } else if record_type(last) == type_fpr() {
                    assert(after[i].uid == before[i].uid);
                    if after[i].fingerprint != before[i].fingerprint {
                        assert(fpr_of_line(lines[lines.len() - 1]) == Some(after[i].fingerprint));
                    }
                } else if record_type(last) == type_uid() {
                    assert(after[i].fingerprint == before[i].fingerprint);
                    if after[i].uid != before[i].uid {
                        assert(uid_of_line(lines[lines.len() - 1]) == Some(after[i].uid));
                    }
                } else {
                    assert(after[i] == before[i]);
                }
            }
        }
    }
}

/// Every listed key's fingerprint is that of an `fpr` record of the listing,
/// and its user id is either the decoded field 10 of a `uid` record of the
/// listing or, where no such record named it, "<length>-bit key" with the
/// length of the `pub` record that opened it.
pub proof fn lemma_key_names_come_from_records(listing: Seq<char>, secrets: Set<Seq<char>>)
    ensures
        forall|j: int|
            0 <= j < public_keys_of(listing, secrets).len() ==> exists|i: int|
                0 <= i < pub_records(lines_of(listing)).len() && named_in(
                    #[trigger] public_keys_of(listing, secrets)[j],
                    pub_records(lines_of(listing))[i],
                    lines_of(listing),
                ),
{
    let lines = lines_of(listing);
    lemma_pass_follows_pub_records(lines, secrets);
    lemma_pass_names_from_records(lines, secrets);
    let all = flushed(listing_after(lines, secrets));
    lemma_with_fingerprint_members(all);
    let keys = public_keys_of(listing, secrets);
    assert forall|j: int| 0 <= j < keys.len() implies exists|i: int|
        0 <= i < pub_records(lines).len() && named_in(
            #[trigger] keys[j],
            pub_records(lines)[i],
            lines,
        ) by {
        let i = choose|i: int| 0 <= i < all.len() && with_fingerprint(all)[j] == all[i];
        assert(named_in(all[i], pub_records(lines)[i], lines));
    }
}

// ---------------------------------------------------------------------------
// Escapes write bytes in base 16
// ---------------------------------------------------------------------------

/// The lower-case hexadecimal digits, in the order of their values.
pub open spec fn lower_hex_digits() -> Seq<char> {
    seq!['0', '1', '2', '3', '4', '5', '6', '7', '8', '9', 'a', 'b', 'c', 'd', 'e', 'f']
}

/// The upper-case hexadecimal digits, in the order of their values.
pub open spec fn upper_hex_digits() -> Seq<char> {
    seq!['0', '1', '2', '3', '4', '5', '6', '7', '8', '9', 'A', 'B', 'C', 'D', 'E', 'F']
}

/// The digit of value `d` (below 16), in upper or lower case.
pub open spec fn hex_digit_char(d: int, upper: bool) -> char {
    if upper {
        upper_hex_digits()[d]
    } else {
        lower_hex_digits()[d]
    }
}

/// The escape that writes byte `v`: a backslash and the two digits of `v` in
/// base 16, each in the case given.
pub open spec fn escape_of(v: u8, upper_hi: bool, upper_lo: bool) -> Seq<char> {
    seq!['\\', hex_digit_char((v / 16) as int, upper_hi), hex_digit_char((v % 16) as int, upper_lo)]
}

proof fn lemma_hex_digit_char(d: int, upper: bool)
    requires
        0 <= d < 16,
    ensures
        ('\0' <= hex_digit_char(d, upper) <= '\u{7f}'),
        hex_digit_char(d, upper) != '\\',
        is_hex_digit(hex_digit_char(d, upper) as u8),
        hex_value(hex_digit_char(d, upper) as u8) == d,
{
    assert(d == 0 || d == 1 || d == 2 || d == 3 || d == 4 || d == 5 || d == 6 || d == 7 || d == 8
        || d == 9 || d == 10 || d == 11 || d == 12 || d == 13 || d == 14 || d == 15);
}

/// Within a field, a backslash followed by two hexadecimal digits of either
/// case is replaced by the byte they write in base 16, and decoding goes on
/// after the third character.
pub proof fn lemma_escape_decodes_in_place(
    before: Seq<char>,
    hi: int,
    lo: int,
    upper_hi: bool,
    upper_lo: bool,
    after: Seq<char>,
)
    requires
        0 <= hi < 16,
        0 <= lo < 16,
    ensures
        ({
            let field = before + seq!['\\', hex_digit_char(hi, upper_hi), hex_digit_char(lo, upper_lo)]
                + after;
            let at = encode_utf8(before).len() as int;
            unescape_from(encode_utf8(field), at) == prepend(
                (16 * hi + lo) as u8,
                unescape_from(encode_utf8(field), at + 3),
            )
        }),
{
    let esc = seq!['\\', hex_digit_char(hi, upper_hi), hex_digit_char(lo, upper_lo)];
    let field = before + esc + after;
    lemma_hex_digit_char(hi, upper_hi);
    lemma_hex_digit_char(lo, upper_lo);
    assert(vstd::utf8::is_ascii_chars(esc));
    vstd::utf8::is_ascii_chars_encode_utf8(esc);
    lemma_encode_concat(before, esc);
    lemma_encode_concat(before + esc, after);
    let b = encode_utf8(field);
    let at = encode_utf8(before).len() as int;
    let e = encode_utf8(esc);
    assert(b =~= encode_utf8(before) + e + encode_utf8(after));
    assert(b[at] == e[0]);
    assert(b[at + 1] == e[1]);
    assert(b[at + 2] == e[2]);
    assert(e[0] == 0x5C);
    encode_utf8_valid_utf8(field);
    encode_utf8_valid_utf8(before);
    encode_utf8_valid_utf8(before + esc);
    encode_utf8_valid_utf8(after);
    encode_utf8_valid_utf8(esc + after);
    lemma_encode_concat(esc, after);
    lemma_boundary_at_join(encode_utf8(before), e + encode_utf8(after));
    lemma_boundary_at_join(encode_utf8(before + esc), encode_utf8(after));
    assert(encode_utf8(before) + e + encode_utf8(after) =~= encode_utf8(before) + (e + encode_utf8(after)));
    assert(is_char_boundary(b, at + 1)) by {
        vstd::utf8::is_char_boundary_iff_not_is_continuation_byte(b, at + 1);
    }
    assert(hex_pair(b[at + 1], b[at + 2]) == Some((16 * hi + lo) as u8));
}

proof fn lemma_encode_concat(a: Seq<char>, b: Seq<char>)
    ensures
        encode_utf8(a + b) == encode_utf8(a) + encode_utf8(b),
    decreases a.len(),
{
    if a.len() == 0 {
        assert(a + b =~= b);
        assert(encode_utf8(a) + encode_utf8(b) =~= encode_utf8(b));
    } else {
        lemma_encode_concat(a.drop_first(), b);
        assert((a + b).drop_first() =~= a.drop_first() + b);
        assert((a + b)[0] == a[0]);
        let h = encode_scalar(a[0] as u32);
        assert(h + (encode_utf8(a.drop_first()) + encode_utf8(b)) =~= (h + encode_utf8(
            a.drop_first(),
        )) + encode_utf8(b));
    }
}

proof fn lemma_boundary_at_join(x: Seq<u8>, y: Seq<u8>)
    requires
        valid_utf8(x),
        valid_utf8(y),
    ensures
        valid_utf8(x + y),
        is_char_boundary(x + y, x.len() as int),
{
    vstd::utf8::valid_utf8_concat(x, y);
    if y.len() == 0 {
        assert(x + y =~= x);
        vstd::utf8::is_char_boundary_start_end_of_seq(x);
    } else {
        assert((x + y)[x.len() as int] == y[0]);
        vstd::utf8::is_char_boundary_iff_not_is_continuation_byte(x + y, x.len() as int);
    }
}

/// Every byte `v`, written as a backslash and its two hexadecimal digits of
/// either case, decodes to `v`; below 0x80 the text of such a field is the
/// character `v`.
pub proof fn lemma_escape_decodes_to_its_byte(v: u8, upper_hi: bool, upper_lo: bool)
    ensures
        unescape_from(encode_utf8(escape_of(v, upper_hi, upper_lo)), 0) == Some(seq![v]),
        colon_field_text(escape_of(v, upper_hi, upper_lo)) == Some(text_of_bytes(seq![v])),
        v < 0x80 ==> colon_field_text(escape_of(v, upper_hi, upper_lo)) == Some(seq![v as char]),
{
    let hi = (v / 16) as int;
    let lo = (v % 16) as int;
    let field = escape_of(v, upper_hi, upper_lo);
    let empty = Seq::<char>::empty();
    lemma_escape_decodes_in_place(empty, hi, lo, upper_hi, upper_lo, empty);
    assert(empty + seq!['\\', hex_digit_char(hi, upper_hi), hex_digit_char(lo, upper_lo)] + empty
        =~= field);
    assert(encode_utf8(empty) =~= Seq::<u8>::empty());
    lemma_hex_digit_char(hi, upper_hi);
    lemma_hex_digit_char(lo, upper_lo);
    assert(vstd::utf8::is_ascii_chars(field));
    vstd::utf8::is_ascii_chars_encode_utf8(field);
    let b = encode_utf8(field);
    assert(b.len() == 3);
    assert(unescape_from(b, 3) == Some(Seq::<u8>::empty()));
    assert((16 * hi + lo) as u8 == v);
    assert(seq![v] + Seq::<u8>::empty() =~= seq![v]);
    if v < 0x80 {
        let c = v as char;
        let one = seq![c];
        assert(vstd::utf8::is_ascii_chars(one));
        vstd::utf8::is_ascii_chars_encode_utf8(one);
        assert(encode_utf8(one) =~= seq![v]);
        encode_utf8_valid_utf8(one);
        encode_utf8_decode_utf8(one);
    }
}

} // verus!
