//! Attribute values (integers, strings, floats by their parts) and the
//! column definitions that attributes give in the schemas of the supported
//! stores.
use vstd::prelude::*;
use crate::strings::{decimal, push_char, string_from_chars, string_of};

verus! {

/// The value of the decimal digits `ds` (most significant first).
pub open spec fn digits_value(ds: Seq<char>) -> int
    decreases ds.len(),
{
    if ds.len() == 0 {
        0
    } else {
        digits_value(ds.drop_last()) * 10 + (ds.last() as int - '0' as int)
    }
}

pub open spec fn all_digits(ds: Seq<char>) -> bool {
    forall|i: int| 0 <= i < ds.len() ==> '0' <= #[trigger] ds[i] <= '9'
}

/// What parsing a text as an `i64` gives: an optional `+` or `-` sign
/// followed by one or more decimal digits, whose value fits in an `i64`;
/// nothing otherwise.
pub open spec fn parse_i64_spec(s: Seq<char>) -> Option<int> {
    let (neg, ds) = if s.len() > 0 && s[0] == '-' {
        (true, s.drop_first())
    } else if s.len() > 0 && s[0] == '+' {
        (false, s.drop_first())
    } else {
        (false, s)
    };
    let v = if neg { -digits_value(ds) } else { digits_value(ds) };
    if ds.len() > 0 && all_digits(ds) && i64::MIN <= v <= i64::MAX {
        Some(v)
    } else {
        None
    }
}

/// Calls `str::parse::<i64>`. Its documentation (`i64::from_str_radix`
/// with radix 10) accepts an optional `+` or `-` sign followed by one or
/// more digits, and fails on anything else or on a value out of range; the
/// contract states exactly that.
#[verifier::external_body]
fn parse_i64(s: &str) -> (r: Option<i64>)
    ensures
        match parse_i64_spec(s@) {
            Some(v) => r == Some(v as i64),
            None => r is None,
        },
{
    s.parse::<i64>().ok()
}

/// An integer attribute value.
pub struct IntegerValue {
    pub inner: i64,
}

/// The decimal text of an integer, with a `-` when it is negative (what
/// `format!("{}", v)` writes).
pub open spec fn signed_decimal(v: int) -> Seq<char> {
    if v < 0 {
        seq!['-'] + decimal((-v) as nat)
    } else {
        decimal(v as nat)
    }
}

impl IntegerValue {
    /// Parses a text as an integer (see `parse_i64_spec`); an error naming
    /// the text otherwise.
    pub fn try_from(x: String) -> (r: Result<Self, String>)
        ensures
            match parse_i64_spec(x@) {
                Some(v) => r matches Ok(iv) && iv.inner == v,
                None => r matches Err(e) && e@ == "Could not parse "@ + x@ + " as int."@,
            },
    {
        match parse_i64(x.as_str()) {
            Some(val) => Ok(IntegerValue { inner: val }),
            None => {
                proof {
                    reveal_strlit("Could not parse ");
                    reveal_strlit(" as int.");
                }
                let mut e = string_of("Could not parse ");
                e.append(x.as_str());
                e.append(" as int.");
                Err(e)
            },
        }
    }

    /// The value as SQL: its decimal text.
    pub fn as_sql(&self) -> (r: String)
        ensures
            r@ == signed_decimal(self.inner as int),
    {
        if self.inner < 0 {
            let m: u64 = if self.inner == i64::MIN {
                9223372036854775808u64
            } else {
                (-self.inner) as u64
            };
            let mut r = string_of("-");
            let digits = u64_to_string(m);
            proof {
                reveal_strlit("-");
                assert(m as int == -(self.inner as int));
            }
            r.append(digits.as_str());
            proof {
                assert(r@ =~= seq!['-'] + decimal((-(self.inner as int)) as nat));
            }
            r
        } else {
            let s = u64_to_string(self.inner as u64);
            s
        }
    }
}

fn digit_of(d: u64) -> (c: char)
    requires
        d < 10,
    ensures
        c == crate::strings::digit_char(d as nat),
{
    let cs: [char; 10] = ['0', '1', '2', '3', '4', '5', '6', '7', '8', '9'];
    cs[d as usize]
}

fn push_decimal_u64(n: u64, out: &mut Vec<char>)
    ensures
        final(out)@ == old(out)@ + decimal(n as nat),
    decreases n,
{
    if n < 10 {
        out.push(digit_of(n));
        proof {
            assert(decimal(n as nat) == seq![crate::strings::digit_char(n as nat)]);
            assert(final(out)@ =~= old(out)@ + decimal(n as nat));
        }
    } else {
        push_decimal_u64(n / 10, out);
        out.push(digit_of(n % 10));
        proof {
            assert(decimal(n as nat) == decimal((n / 10) as nat).push(crate::strings::digit_char((n % 10) as nat)));
        }
    }
}

/// The decimal text of `n`.
fn u64_to_string(n: u64) -> (r: String)
    ensures
        r@ == decimal(n as nat),
{
    let mut cs: Vec<char> = Vec::new();
    push_decimal_u64(n, &mut cs);
    proof {
        assert(cs@ =~= decimal(n as nat));
    }
    string_from_chars(&cs)
}

/// A string attribute value.
pub struct StringValue {
    pub inner: String,
}

impl StringValue {
    pub fn from(inner: String) -> (r: Self)
        ensures
            r.inner == inner,
    {
        StringValue { inner }
    }

    /// The value as SQL: the text in double quotes.
    pub fn as_sql(&self) -> (r: String)
        ensures
            r@ == seq!['"'] + self.inner@ + seq!['"'],
    {
        let mut r = String::new();
        push_char(&mut r, '"');
        r.append(self.inner.as_str());
        push_char(&mut r, '"');
        proof {
            assert(r@ =~= seq!['"'] + self.inner@ + seq!['"']);
        }
        r
    }
}

/// A floating-point attribute value, by its parts: the value is
/// `sign * mantissa * 2^exponent`.
pub struct FloatValue {
    pub sign: i8,
    pub mantissa: u64,
    pub exponent: i16,
}

/// An attribute value.
pub enum AttributeValue {
    IntegerValue(IntegerValue),
    StringValue(StringValue),
    FloatValue(FloatValue),
}

/// An SQL expression, as far as an attribute value reads it: a number (by
/// its text), a single-quoted string, another kind of value, or another kind
/// of node.
pub enum SqlLiteral {
    Number(String),
    SingleQuotedString(String),
    OtherValue,
    OtherNode,
}

/// What an SQL literal gives: an integer or a string value, or the text of a
/// number with a decimal point, which is read as a float.
pub enum LiteralValue {
    Value(AttributeValue),
    FloatText(String),
}

/// Whether a text holds the character `c`.
fn text_contains(s: &String, c: char) -> (r: bool)
    ensures
        r == s@.contains(c),
{
    let n = s.as_str().unicode_len();
    let mut i: usize = 0;
    while i < n
        invariant
            n == s@.len(),
            i <= n,
            forall|j: int| 0 <= j < i ==> s@[j] != c,
        decreases n - i,
    {
        if s.as_str().get_char(i) == c {
            return true;
        }
        i = i + 1;
    }
    false
}

impl AttributeValue {
    /// Reads an SQL literal as an attribute value: a number with a decimal
    /// point is a float (its text is handed back to be parsed as one), any
    /// other number an integer (see `IntegerValue::try_from`), a
    /// single-quoted string a string; any other value or node is an error.
    pub fn read_literal(x: SqlLiteral) -> (r: Result<LiteralValue, String>)
        ensures
            match x {
                SqlLiteral::Number(t) => if t@.contains('.') {
                    r matches Ok(LiteralValue::FloatText(f)) && f@ == t@
                } else {
                    match parse_i64_spec(t@) {
                        Some(v) => r matches Ok(LiteralValue::Value(AttributeValue::IntegerValue(iv))) && iv.inner == v,
                        None => r matches Err(e) && e@ == "Could not parse "@ + t@ + " as int."@,
                    }
                },
                SqlLiteral::SingleQuotedString(q) => r matches Ok(LiteralValue::Value(AttributeValue::StringValue(sv)))
                    && sv.inner@ == q@,
                SqlLiteral::OtherValue => r matches Err(e) && e@ == "Only numbers and singlue quoted strings supported as literals"@,
                SqlLiteral::OtherNode => r matches Err(e) && e@ == "Only values supported as nodes"@,
            },
    {
        match x {
            SqlLiteral::Number(t) => {
                if text_contains(&t, '.') {
                    Ok(LiteralValue::FloatText(t))
                } else {
                    match IntegerValue::try_from(t) {
                        Ok(iv) => Ok(LiteralValue::Value(AttributeValue::IntegerValue(iv))),
                        Err(e) => Err(e),
                    }
                }
            },
            SqlLiteral::SingleQuotedString(q) => Ok(LiteralValue::Value(AttributeValue::StringValue(StringValue::from(q)))),
            SqlLiteral::OtherValue => Err(string_of("Only numbers and singlue quoted strings supported as literals")),
            SqlLiteral::OtherNode => Err(string_of("Only values supported as nodes")),
        }
    }
}

/// The ORC schema of an attribute: `name:type`.
pub fn get_orc_schema(name: &String, orc_type: &String) -> (r: String)
    ensures
        r@ == name@ + seq![':'] + orc_type@,
{
    let mut r = name.clone();
    push_char(&mut r, ':');
    r.append(orc_type.as_str());
    r
}

/// The SQLite column definition of an attribute: `name type`.
pub fn get_sqlite_coldef(name: &String, sqlite_type: &String) -> (r: String)
    ensures
        r@ == name@ + seq![' '] + sqlite_type@,
{
    let mut r = name.clone();
    push_char(&mut r, ' ');
    r.append(sqlite_type.as_str());
    r
}

/// The BigQuery column definition of an attribute: `name type`.
pub fn get_bigquery_coldef(name: &String, bigquery_type: &String) -> (r: String)
    ensures
        r@ == name@ + seq![' '] + bigquery_type@,
{
    let mut r = name.clone();
    push_char(&mut r, ' ');
    r.append(bigquery_type.as_str());
    r
}

/// The PostgreSQL column definition of an attribute: `name type`, followed
/// directly (without a space) by `NOT NULL` when the attribute is nullable.
pub fn get_postgres_coldef(name: &String, postgres_type: &String, nullable: bool) -> (r: String)
    ensures
        r@ == name@ + seq![' '] + postgres_type@ + (if nullable { "NOT NULL"@ } else { Seq::empty() }),
{
    let mut r = name.clone();
    push_char(&mut r, ' ');
    r.append(postgres_type.as_str());
    let ghost r0 = r@;
    if nullable {
        proof {
            reveal_strlit("NOT NULL");
        }
        r.append("NOT NULL");
    } else {
        proof {
            assert(r@ =~= r0 + Seq::<char>::empty());
        }
    }
    r
}

/// Whether a PostgreSQL value of the attribute can be serialised as JSON.
pub fn psycopg2_value_json_serializable() -> (r: bool)
    ensures
        r,
{
    true
}

/// A character with the Unicode `White_Space` property (what
/// `char::is_whitespace` accepts): U+0009 to U+000D, U+0020, U+0085,
/// U+00A0, U+1680, U+2000 to U+200A, U+2028, U+2029, U+202F, U+205F and
/// U+3000.
pub open spec fn is_white_space(c: char) -> bool {
    let n = c as u32;
    ||| 0x9 <= n <= 0xd
    ||| n == 0x20
    ||| n == 0x85
    ||| n == 0xa0
    ||| n == 0x1680
    ||| 0x2000 <= n <= 0x200a
    ||| n == 0x2028
    ||| n == 0x2029
    ||| n == 0x202f
    ||| n == 0x205f
    ||| n == 0x3000
}

/// The text without its leading white space.
pub open spec fn trim_start(s: Seq<char>) -> Seq<char>
    decreases s.len(),
{
    if s.len() > 0 && is_white_space(s[0]) {
        trim_start(s.drop_first())
    } else {
        s
    }
}

/// The text without its trailing white space.
pub open spec fn trim_end(s: Seq<char>) -> Seq<char>
    decreases s.len(),
{
    if s.len() > 0 && is_white_space(s.last()) {
        trim_end(s.drop_last())
    } else {
        s
    }
}

/// What `str::trim` makes of a text: the text without its leading and
/// trailing white space.
pub open spec fn trimmed(s: Seq<char>) -> Seq<char> {
    trim_end(trim_start(s))
}

/// Calls `str::trim`, whose documentation says it drops leading and
/// trailing white space as the Unicode `White_Space` property defines it
/// (see `trimmed`).
#[verifier::external_body]
fn trim_text(s: &str) -> (r: String)
    ensures
        r@ == trimmed(s@),
{
    s.trim().to_string()
}

/// A text with each single quote escaped by a backslash.
pub open spec fn escape_quotes(s: Seq<char>) -> Seq<char>
    decreases s.len(),
{
    if s.len() == 0 {
        s
    } else if s.last() == '\'' {
        escape_quotes(s.drop_last()) + seq!['\\', '\'']
    } else {
        escape_quotes(s.drop_last()).push(s.last())
    }
}

/// The Presto schema line of an attribute: its name, spaces up to one past
/// `max_attribute_length` (counted in bytes), and its type; with a comment
/// (already trimmed), a second line `     COMMENT '<comment>'` with its
/// single quotes escaped.
pub open spec fn presto_schema(name: Seq<char>, presto_type: Seq<char>, comment: Option<Seq<char>>, spaces: nat) -> Seq<char> {
    let first_line = name + Seq::new(spaces, |i: int| ' ') + presto_type;
    match comment {
        Some(c) => first_line + "\n     COMMENT '"@ + escape_quotes(c) + "'"@,
        None => first_line,
    }
}

/// The number of bytes of a text.
pub open spec fn byte_len(s: Seq<char>) -> usize {
    vstd::utf8::encode_utf8(s).len() as usize
}

/// The Presto schema line of an attribute whose comment is already trimmed
/// (see `presto_schema`).
pub fn presto_schema_lines(name: &String, presto_type: &String, trimmed_comment: Option<String>, max_attribute_length: usize) -> (r: String)
    requires
        byte_len(name@) <= max_attribute_length,
        max_attribute_length - byte_len(name@) < usize::MAX,
    ensures
        r@ == presto_schema(name@, presto_type@, match trimmed_comment { Some(c) => Some(c@), None => None }, (max_attribute_length - byte_len(name@) + 1) as nat),
{
    let n = name.as_str().len();
    let spaces = (max_attribute_length - n) + 1;
    let mut line = name.clone();
    let mut i: usize = 0;
    while i < spaces
        invariant
            i <= spaces,
            line@ == name@ + Seq::new(i as nat, |j: int| ' '),
        decreases spaces - i,
    {
        push_char(&mut line, ' ');
        i = i + 1;
        proof {
            assert(line@ =~= name@ + Seq::new(i as nat, |j: int| ' '));
        }
    }
    line.append(presto_type.as_str());
    match trimmed_comment {
        Some(c) => {
            proof {
                reveal_strlit("\n     COMMENT '");
                reveal_strlit("'");
            }
            line.append("\n     COMMENT '");
            let escaped = escape_text(&c);
            line.append(escaped.as_str());
            line.append("'");
            line
        },
        None => line,
    }
}

/// A text with each single quote escaped (see `escape_quotes`).
fn escape_text(s: &String) -> (r: String)
    ensures
        r@ == escape_quotes(s@),
{
    let n = s.as_str().unicode_len();
    let mut r = String::new();
    let mut i: usize = 0;
    while i < n
        invariant
            n == s@.len(),
            i <= n,
            r@ == escape_quotes(s@.take(i as int)),
        decreases n - i,
    {
        let c = s.as_str().get_char(i);
        proof {
            assert(s@.take(i as int + 1).drop_last() =~= s@.take(i as int));
            assert(s@.take(i as int + 1).last() == c);
        }
        if c == '\'' {
            push_char(&mut r, '\\');
            push_char(&mut r, '\'');
            proof {
                assert(r@ =~= escape_quotes(s@.take(i as int)) + seq!['\\', '\'']);
            }
        } else {
            push_char(&mut r, c);
        }
        i = i + 1;
    }
    proof {
        assert(s@.take(i as int) =~= s@);
    }
    r
}

/// The Presto schema line of an attribute (see `presto_schema`), its comment
/// trimmed first. A name longer than `max_attribute_length` is a fatal
/// error; those inputs are excluded.
pub fn get_presto_schema(name: &String, presto_type: &String, comment: &Option<String>, max_attribute_length: usize) -> (r: String)
    requires
        byte_len(name@) <= max_attribute_length,
        max_attribute_length - byte_len(name@) < usize::MAX,
    ensures
        r@ == presto_schema(name@, presto_type@, match comment { Some(c) => Some(trimmed(c@)), None => None }, (max_attribute_length - byte_len(name@) + 1) as nat),
{
    let t = match comment {
        Some(c) => Some(trim_text(c.as_str())),
        None => None,
    };
    presto_schema_lines(name, presto_type, t, max_attribute_length)
}

} // verus!
