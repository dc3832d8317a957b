use vstd::prelude::*;
use vstd::string::StringSliceAdditionalSpecFns;
use vstd::utf8::encode_utf8;
use sha2::Digest;

use crate::errors::Error;

verus! {

/// The canonical record of one migration.
///
/// `name` orders migrations; ascending lexicographic order coincides with
/// chronological order because names conventionally start with a
/// `YYYY-MM-DD-HHMMSS_` timestamp prefix.  `up_sql` is present for local
/// migrations read from disk and may be absent for applied migrations
/// (the tracking table need not store it).  An absent `down_sql` makes
/// the migration irreversible.  `hash` is a content hash over the up SQL:
/// recorded at apply time for applied migrations, computed from the file
/// bytes for local ones.
#[derive(Debug, PartialEq, Eq)]
pub struct Migration {
    pub name: String,
    pub up_sql: Option<String>,
    pub down_sql: Option<String>,
    pub hash: Option<String>,
}

/// The mathematical model of a [`Migration`]: each text field as a
/// sequence of characters.
pub struct MigrationModel {
    pub name: Seq<char>,
    pub up_sql: Option<Seq<char>>,
    pub down_sql: Option<Seq<char>>,
    pub hash: Option<Seq<char>>,
}

impl View for Migration {
    type V = MigrationModel;

    open spec fn view(&self) -> MigrationModel {
        MigrationModel {
            name: self.name@,
            up_sql: match self.up_sql {
                Some(s) => Some(s@),
                None => None,
            },
            down_sql: match self.down_sql {
                Some(s) => Some(s@),
                None => None,
            },
            hash: match self.hash {
                Some(s) => Some(s@),
                None => None,
            },
        }
    }
}

impl DeepView for Migration {
    type V = MigrationModel;

    open spec fn deep_view(&self) -> MigrationModel {
        self.view()
    }
}

impl Clone for Migration {
    /// An exact copy: the clone has the same model as the original.
    fn clone(&self) -> (result: Self)
        ensures
            result@ == self@,
    {
        Migration {
            name: self.name.clone(),
            up_sql: match &self.up_sql {
                Some(s) => Some(s.clone()),
                None => None,
            },
            down_sql: match &self.down_sql {
                Some(s) => Some(s.clone()),
                None => None,
            },
            hash: match &self.hash {
                Some(s) => Some(s.clone()),
                None => None,
            },
        }
    }
}

impl Migration {
    /// A migration can be rolled back exactly when its down SQL is present.
    pub fn is_reversable(&self) -> (result: bool)
        ensures
            result == self@.down_sql is Some,
    {
        self.down_sql.is_some()
    }
}

/// The SHA-256 digest of a byte sequence.  Its value is fixed by the
/// SHA-256 standard; this library only relies on it being a function of
/// the input bytes, 32 bytes long.
pub uninterp spec fn sha256_digest(bytes: Seq<u8>) -> Seq<u8>;

/// Relies on sha2's `Sha256`: the digest is a pure function of the input
/// bytes and is 32 bytes long.
#[verifier::external_body]
fn sha256(s: &str) -> (result: Vec<u8>)
    ensures
        result@ == sha256_digest(s.spec_bytes()),
        result@.len() == 32,
{
    sha2::Sha256::digest(s.as_bytes()).to_vec()
}

/// Relies on `String::push`: appends the character to the end of the string.
#[verifier::external_body]
fn push_char(s: &mut String, c: char)
    ensures
        final(s)@ == old(s)@.push(c),
{
    s.push(c);
}

/// Whether the character has the Unicode `White_Space` property, as
/// `char::is_whitespace` decides it.
pub uninterp spec fn char_is_whitespace(c: char) -> bool;

/// Relies on `char::is_whitespace`: the answer depends on the character alone.
pub assume_specification[ char::is_whitespace ](c: char) -> (result: bool)
    ensures
        result == char_is_whitespace(c),
;

/// A name that gives the builder nothing to work with: every character
/// is whitespace.  The empty name is blank.
pub open spec fn is_blank(s: Seq<char>) -> bool {
    forall|i: int| 0 <= i < s.len() ==> char_is_whitespace(s[i])
}

/// Whether every character of `s` is whitespace.
pub fn name_is_blank(s: &str) -> (result: bool)
    ensures
        result == is_blank(s@),
{
    let n: usize = s.unicode_len();
    let mut i: usize = 0;
    while i < n
        invariant
            n == s@.len(),
            0 <= i <= n,
            forall|j: int| 0 <= j < i ==> char_is_whitespace(s@[j]),
        decreases n - i,
    {
        if !s.get_char(i).is_whitespace() {
            return false;
        }
        i += 1;
    }
    true
}

/// The hexadecimal digit for a value below 16, lower case.
pub open spec fn hex_digit_char(n: u8) -> char
    recommends
        n < 16,
{
    if n < 10 {
        (48 + n) as char
    } else {
        (87 + n) as char
    }
}

/// A byte sequence written as lower-case hexadecimal text, two digits
/// per byte.
pub open spec fn hex_of(bytes: Seq<u8>) -> Seq<char>
    decreases bytes.len(),
{
    if bytes.len() == 0 {
        Seq::empty()
    } else {
        hex_of(bytes.drop_last()) + seq![
            hex_digit_char(bytes.last() / 16),
            hex_digit_char(bytes.last() % 16),
        ]
    }
}

fn push_hex_digit(s: &mut String, d: u8)
    requires
        d < 16,
    ensures
        final(s)@ == old(s)@.push(hex_digit_char(d)),
{
    let c: char = if d < 10 {
        (48 + d) as char
    } else {
        (87 + d) as char
    };
    push_char(s, c);
}

/// Write the bytes as lower-case hexadecimal text.
pub fn to_hex(bytes: &Vec<u8>) -> (result: String)
    ensures
        result@ == hex_of(bytes@),
{
    let mut s = String::new();
    let mut i: usize = 0;
    while i < bytes.len()
        invariant
            0 <= i <= bytes@.len(),
            s@ == hex_of(bytes@.take(i as int)),
        decreases bytes@.len() - i,
    {
        let b = bytes[i];
        push_hex_digit(&mut s, b / 16);
        push_hex_digit(&mut s, b % 16);
        proof {
            let prefix = bytes@.take(i + 1);
            assert(prefix.drop_last() =~= bytes@.take(i as int));
            assert(prefix.last() == bytes@[i as int]);
        }
        i += 1;
    }
    proof {
        assert(bytes@.take(bytes@.len() as int) =~= bytes@);
    }
    s
}

/// The content hash of a migration's up SQL: the SHA-256 digest of its
/// UTF-8 bytes, written as lower-case hexadecimal text.
pub open spec fn content_hash(up_sql: Seq<char>) -> Seq<char> {
    hex_of(sha256_digest(encode_utf8(up_sql)))
}

/// Compute the content hash of an up-SQL text.
pub fn hash_of_up_sql(up_sql: &str) -> (result: String)
    ensures
        result@ == content_hash(up_sql@),
{
    let digest = sha256(up_sql);
    to_hex(&digest)
}

/// A calendar date and time of day, UTC, as plain values.
///
/// This is all the engine reads of a date: enough to render the
/// `YYYY-MM-DD-HHMMSS` prefix that keeps names in chronological order.
/// Callers that hold a richer date value convert it to these fields.
#[derive(Debug, Clone, Copy, PartialEq, Eq, Structural)]
pub struct Timestamp {
    pub year: u32,
    pub month: u32,
    pub day: u32,
    pub hour: u32,
    pub minute: u32,
    pub second: u32,
}

impl Timestamp {
    /// A plausible calendar date that the four/two-digit rendering
    /// represents faithfully.
    pub open spec fn wf(self) -> bool {
        &&& self.year <= 9999
        &&& 1 <= self.month <= 12
        &&& 1 <= self.day <= 31
        &&& self.hour <= 23
        &&& self.minute <= 59
        &&& self.second <= 59
    }

    /// The start of the Unix epoch: the bootstrap migration carries this
    /// date so that it sorts before every generated migration.
    pub fn epoch() -> (result: Timestamp)
        ensures
            result == (Timestamp { year: 1970, month: 1, day: 1, hour: 0, minute: 0, second: 0 }),
            result.wf(),
    {
        Timestamp { year: 1970, month: 1, day: 1, hour: 0, minute: 0, second: 0 }
    }
}

/// The decimal digit character for a value below 10.
pub open spec fn dec_digit_char(n: u32) -> char
    recommends
        n < 10,
{
    (48 + n) as char
}

/// A value below 100 as two decimal digits, zero padded.
pub open spec fn two_digits(n: u32) -> Seq<char>
    recommends
        n < 100,
{
    seq![dec_digit_char((n / 10) % 10), dec_digit_char(n % 10)]
}

/// A value below 10000 as four decimal digits, zero padded.
pub open spec fn four_digits(n: u32) -> Seq<char>
    recommends
        n < 10000,
{
    seq![
        dec_digit_char((n / 1000) % 10),
        dec_digit_char((n / 100) % 10),
        dec_digit_char((n / 10) % 10),
        dec_digit_char(n % 10),
    ]
}

/// A timestamp rendered as `YYYY-MM-DD-HHMMSS`.
pub open spec fn timestamp_chars(t: Timestamp) -> Seq<char> {
    four_digits(t.year) + seq!['-'] + two_digits(t.month) + seq!['-'] + two_digits(t.day)
        + seq!['-'] + two_digits(t.hour) + two_digits(t.minute) + two_digits(t.second)
}

fn push_dec_digit(s: &mut String, d: u32)
    requires
        d < 10,
    ensures
        final(s)@ == old(s)@.push(dec_digit_char(d)),
{
    let c: char = ((48 + d) as u8) as char;
    push_char(s, c);
}

fn push_two_digits(s: &mut String, n: u32)
    ensures
        final(s)@ == old(s)@ + two_digits(n),
{
    push_dec_digit(s, (n / 10) % 10);
    push_dec_digit(s, n % 10);
    proof {
        assert(final(s)@ =~= old(s)@ + two_digits(n));
    }
}

/// Render a timestamp as `YYYY-MM-DD-HHMMSS`.
pub fn format_timestamp(t: Timestamp) -> (result: String)
    ensures
        result@ == timestamp_chars(t),
{
    let mut s = String::new();
    push_dec_digit(&mut s, (t.year / 1000) % 10);
    push_dec_digit(&mut s, (t.year / 100) % 10);
    push_dec_digit(&mut s, (t.year / 10) % 10);
    push_dec_digit(&mut s, t.year % 10);
    push_char(&mut s, '-');
    push_two_digits(&mut s, t.month);
    push_char(&mut s, '-');
    push_two_digits(&mut s, t.day);
    push_char(&mut s, '-');
    push_two_digits(&mut s, t.hour);
    push_two_digits(&mut s, t.minute);
    push_two_digits(&mut s, t.second);
    proof {
        assert(s@ =~= timestamp_chars(t));
    }
    s
}

/// Whether the character is a decimal digit.
pub open spec fn is_dec_digit(c: char) -> bool {
    48 <= c as int <= 57
}

/// Whether the name already starts with a `YYYY-MM-DD-HHMMSS_` timestamp
/// prefix: fourteen digits broken by dashes, closed by an underscore.
pub open spec fn has_timestamp_prefix(s: Seq<char>) -> bool {
    &&& s.len() >= 18
    &&& is_dec_digit(s[0])
    &&& is_dec_digit(s[1])
    &&& is_dec_digit(s[2])
    &&& is_dec_digit(s[3])
    &&& s[4] == '-'
    &&& is_dec_digit(s[5])
    &&& is_dec_digit(s[6])
    &&& s[7] == '-'
    &&& is_dec_digit(s[8])
    &&& is_dec_digit(s[9])
    &&& s[10] == '-'
    &&& is_dec_digit(s[11])
    &&& is_dec_digit(s[12])
    &&& is_dec_digit(s[13])
    &&& is_dec_digit(s[14])
    &&& is_dec_digit(s[15])
    &&& is_dec_digit(s[16])
    &&& s[17] == '_'
}

fn is_dec_digit_at(s: &str, i: usize) -> (result: bool)
    requires
        i < s@.len(),
    ensures
        result == is_dec_digit(s@[i as int]),
{
    let c = s.get_char(i);
    let v = c as u32;
    48 <= v && v <= 57
}

fn char_at_is(s: &str, i: usize, c: char) -> (result: bool)
    requires
        i < s@.len(),
    ensures
        result == (s@[i as int] == c),
{
    let got = s.get_char(i);
    got as u32 == c as u32
}

/// Whether the name already carries a timestamp prefix.
pub fn name_has_timestamp_prefix(s: &str) -> (result: bool)
    ensures
        result == has_timestamp_prefix(s@),
{
    if s.unicode_len() < 18 {
        return false;
    }
    is_dec_digit_at(s, 0) && is_dec_digit_at(s, 1) && is_dec_digit_at(s, 2)
        && is_dec_digit_at(s, 3) && char_at_is(s, 4, '-') && is_dec_digit_at(s, 5)
        && is_dec_digit_at(s, 6) && char_at_is(s, 7, '-') && is_dec_digit_at(s, 8)
        && is_dec_digit_at(s, 9) && char_at_is(s, 10, '-') && is_dec_digit_at(s, 11)
        && is_dec_digit_at(s, 12) && is_dec_digit_at(s, 13) && is_dec_digit_at(s, 14)
        && is_dec_digit_at(s, 15) && is_dec_digit_at(s, 16) && char_at_is(s, 17, '_')
}

/// Collects the pieces of a migration and builds the canonical record.
pub struct MigrationBuilder {
    pub name: Option<String>,
    pub date: Option<Timestamp>,
    pub up_sql: Option<String>,
    pub down_sql: Option<String>,
}

/// The name the built migration will carry: the given name, with the
/// timestamp prepended when a date was supplied and the name does not
/// already start with one.
pub open spec fn built_name(name: Seq<char>, date: Option<Timestamp>) -> Seq<char> {
    match date {
        Some(d) => if has_timestamp_prefix(name) {
            name
        } else {
            timestamp_chars(d) + seq!['_'] + name
        },
        None => name,
    }
}

impl MigrationBuilder {
    /// Whether building will succeed: a name was supplied and it is not
    /// blank.
    pub open spec fn buildable(self) -> bool {
        match self.name {
            Some(n) => !is_blank(n@),
            None => false,
        }
    }

    pub fn new() -> (result: Self)
        ensures
            result.name is None,
            result.date is None,
            result.up_sql is None,
            result.down_sql is None,
    {
        MigrationBuilder { name: None, date: None, up_sql: None, down_sql: None }
    }

    pub fn name(self, name: &str) -> (result: Self)
        ensures
            result.name matches Some(n) && n@ == name@,
            result.date == self.date,
            result.up_sql == self.up_sql,
            result.down_sql == self.down_sql,
    {
        MigrationBuilder { name: Some(name.to_owned()), ..self }
    }

    pub fn date(self, date: Timestamp) -> (result: Self)
        requires
            date.wf(),
        ensures
            result.date == Some(date),
            result.name == self.name,
            result.up_sql == self.up_sql,
            result.down_sql == self.down_sql,
    {
        MigrationBuilder { date: Some(date), ..self }
    }

    pub fn up_sql(self, up_sql: &str) -> (result: Self)
        ensures
            result.up_sql matches Some(u) && u@ == up_sql@,
            result.name == self.name,
            result.date == self.date,
            result.down_sql == self.down_sql,
    {
        MigrationBuilder { up_sql: Some(up_sql.to_owned()), ..self }
    }

    pub fn down_sql(self, down_sql: &str) -> (result: Self)
        ensures
            result.down_sql matches Some(d) && d@ == down_sql@,
            result.name == self.name,
            result.date == self.date,
            result.up_sql == self.up_sql,
    {
        MigrationBuilder { down_sql: Some(down_sql.to_owned()), ..self }
    }

    /// Build the record.  A missing, empty or whitespace-only name is
    /// rejected; otherwise the name gains its timestamp prefix when one
    /// is due, and the hash is computed from the up SQL when that is
    /// present.
    pub fn build(self) -> (result: Result<Migration, Error>)
        ensures
            result is Ok <==> self.buildable(),
            !self.buildable() ==> result == Result::<Migration, Error>::Err(Error::BadMigrationName),
            result matches Ok(m) ==> {
                &&& m@.name == built_name(self.name->Some_0@, self.date)
                &&& m@.up_sql == (match self.up_sql {
                    Some(u) => Some(u@),
                    None => None::<Seq<char>>,
                })
                &&& m@.down_sql == (match self.down_sql {
                    Some(d) => Some(d@),
                    None => None::<Seq<char>>,
                })
                &&& m@.hash == (match self.up_sql {
                    Some(u) => Some(content_hash(u@)),
                    None => None::<Seq<char>>,
                })
            },
    {
        let name = match self.name {
            Some(n) => n,
            None => {
                return Err(Error::BadMigrationName);
            },
        };
        if name_is_blank(name.as_str()) {
            return Err(Error::BadMigrationName);
        }
        let full_name = match self.date {
            Some(d) => {
                if name_has_timestamp_prefix(name.as_str()) {
                    name
                } else {
                    let mut prefixed = format_timestamp(d);
                    push_char(&mut prefixed, '_');
                    prefixed.append(name.as_str());
                    prefixed
                }
            },
            None => name,
        };
        let hash = match &self.up_sql {
            Some(u) => Some(hash_of_up_sql(u.as_str())),
            None => None,
        };
        Ok(Migration { name: full_name, up_sql: self.up_sql, down_sql: self.down_sql, hash })
    }
}

} // verus!
