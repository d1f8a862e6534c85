//! Options, statistics, tokens and the field-abbreviation tables.

use vstd::prelude::*;
use vstd::string::StringExecFns;
use crate::number::Number;

verus! {

/// How aggressively the encoder lays text out.
#[derive(Debug, Clone, Copy, PartialEq, Eq, Structural)]
pub enum EncodeMode {
    Readable,
    Compact,
    UltraCompact,
}

/// Options for NEON encoding.
#[derive(Debug, Clone)]
pub struct NeonEncodeOptions {
    pub mode: EncodeMode,
    pub compress_numbers: bool,
    pub compress_booleans: bool,
    pub compress_nulls: bool,
    pub compress_strings: bool,
    pub abbreviate_fields: bool,
    pub delimiter: char,
    pub line_ending: String,
    pub indent: usize,
    pub enable_references: bool,
    pub max_inline_array: usize,
}

/// The default encoding options, field by field.
pub open spec fn spec_enc_defaults(r: NeonEncodeOptions) -> bool {
    &&& r.mode == EncodeMode::Compact
    &&& r.compress_numbers
    &&& r.compress_booleans
    &&& r.compress_nulls
    &&& r.compress_strings
    &&& !r.abbreviate_fields
    &&& r.delimiter == ' '
    &&& r.line_ending@ == seq!['\n']
    &&& r.indent == 2
    &&& !r.enable_references
    &&& r.max_inline_array == 10
}

/// The default decoding options, field by field.
pub open spec fn spec_dec_defaults(r: NeonDecodeOptions) -> bool {
    &&& r.strict
    &&& r.expand_abbreviations
    &&& r.max_depth == 100
}

impl Default for NeonEncodeOptions {
    /// The defaults favour compactness: every literal compression on,
    /// field abbreviation off, space-delimited, two-space indent.
    fn default() -> (r: Self)
        ensures
            spec_enc_defaults(r),
    {
        let nl = String::from_str("\n");
        proof {
            reveal_strlit("\n");
            assert(nl@ =~= seq!['\n']);
        }
        NeonEncodeOptions {
            mode: EncodeMode::Compact,
            compress_numbers: true,
            compress_booleans: true,
            compress_nulls: true,
            compress_strings: true,
            abbreviate_fields: false,
            delimiter: ' ',
            line_ending: nl,
            indent: 2,
            enable_references: false,
            max_inline_array: 10,
        }
    }
}

/// Options for NEON decoding.
#[derive(Debug, Clone)]
pub struct NeonDecodeOptions {
    pub strict: bool,
    pub expand_abbreviations: bool,
    pub max_depth: usize,
}

impl Default for NeonDecodeOptions {
    fn default() -> (r: Self)
        ensures
            spec_dec_defaults(r),
    {
        NeonDecodeOptions { strict: true, expand_abbreviations: true, max_depth: 100 }
    }
}

/// Sizes recorded by a codec call.  The byte sizes of the NEON text
/// are exact; token counts estimate four bytes per model token.  The
/// JSON-side sizes and timings belong to the boundary that owns the
/// JSON text and the clock, so a fresh record leaves them zero.
#[derive(Debug, Clone)]
pub struct NeonStats {
    pub input_size: usize,
    pub output_size: usize,
    pub savings_percent: i32,
    pub input_tokens: usize,
    pub output_tokens: usize,
}

impl Default for NeonStats {
    fn default() -> (r: Self)
        ensures
            r.input_size == 0,
            r.output_size == 0,
            r.savings_percent == 0,
            r.input_tokens == 0,
            r.output_tokens == 0,
    {
        NeonStats {
            input_size: 0,
            output_size: 0,
            savings_percent: 0,
            input_tokens: 0,
            output_tokens: 0,
        }
    }
}

/// The kinds of lexical token.
#[derive(Debug, Clone, Copy, PartialEq, Eq, Structural)]
pub enum TokenType {
    ArrayStart,
    SchemaStart,
    ObjectStart,
    Colon,
    Comma,
    Newline,
    Indent,
    ListItem,
    Null,
    Boolean,
    Number,
    String,
    Eof,
}

/// A lexer token: kind, canonical payload, raw source text, and the
/// position of its first character.  Number tokens carry their value
/// in `num`; for every other kind `num` is zero.
#[derive(Debug, Clone)]
pub struct Token {
    pub token_type: TokenType,
    pub value: String,
    pub raw: String,
    pub num: Number,
    pub line: usize,
    pub column: usize,
}

/// The mathematical image of a [`Token`].
pub struct TokenModel {
    pub token_type: TokenType,
    pub value: Seq<char>,
    pub raw: Seq<char>,
    pub num: Number,
    pub line: nat,
    pub column: nat,
}

impl View for Token {
    type V = TokenModel;

    open spec fn view(&self) -> TokenModel {
        TokenModel {
            token_type: self.token_type,
            value: self.value@,
            raw: self.raw@,
            num: self.num,
            line: self.line as nat,
            column: self.column as nat,
        }
    }
}

/// The fixed forward abbreviation table, long form first.
pub open spec fn spec_abbreviations() -> Seq<(Seq<char>, Seq<char>)> {
    seq![
        ("department"@, "dept"@),
        ("description"@, "desc"@),
        ("configuration"@, "config"@),
        ("application"@, "app"@),
        ("environment"@, "env"@),
        ("timestamp"@, "ts"@),
        ("first_name"@, "fname"@),
        ("last_name"@, "lname"@),
        ("phone_number"@, "phone"@),
        ("email_address"@, "emailaddr"@),
        ("notifications"@, "notif"@),
        ("conversions"@, "conv"@),
    ]
}

/// The reverse table: each pair of the forward table, swapped.
pub open spec fn spec_expansions() -> Seq<(Seq<char>, Seq<char>)> {
    spec_abbreviations().map_values(|p: (Seq<char>, Seq<char>)| (p.1, p.0))
}

/// The first value bound to `key` in `table`, if any.
pub open spec fn spec_lookup(table: Seq<(Seq<char>, Seq<char>)>, key: Seq<char>) -> Option<
    Seq<char>,
>
    decreases table.len(),
{
    if table.len() == 0 {
        None
    } else if table[0].0 == key {
        Some(table[0].1)
    } else {
        spec_lookup(table.drop_first(), key)
    }
}

/// `key` abbreviated through the forward table, or unchanged.
pub open spec fn spec_abbrev_key(key: Seq<char>) -> Seq<char> {
    match spec_lookup(spec_abbreviations(), key) {
        Some(v) => v,
        None => key,
    }
}

/// `key` expanded through the reverse table, or unchanged.
pub open spec fn spec_expand_key(key: Seq<char>) -> Seq<char> {
    match spec_lookup(spec_expansions(), key) {
        Some(v) => v,
        None => key,
    }
}

/// Field abbreviations, long form first, in table order.
pub fn get_abbreviations() -> (r: Vec<(String, String)>)
    ensures
        r@.len() == spec_abbreviations().len(),
        forall|i: int|
            0 <= i < r@.len() ==> (#[trigger] r@[i]).0@ == spec_abbreviations()[i].0 && r@[i].1@
                == spec_abbreviations()[i].1,
{
    let mut v: Vec<(String, String)> = Vec::new();
    v.push((String::from_str("department"), String::from_str("dept")));
    v.push((String::from_str("description"), String::from_str("desc")));
    v.push((String::from_str("configuration"), String::from_str("config")));
    v.push((String::from_str("application"), String::from_str("app")));
    v.push((String::from_str("environment"), String::from_str("env")));
    v.push((String::from_str("timestamp"), String::from_str("ts")));
    v.push((String::from_str("first_name"), String::from_str("fname")));
    v.push((String::from_str("last_name"), String::from_str("lname")));
    v.push((String::from_str("phone_number"), String::from_str("phone")));
    v.push((String::from_str("email_address"), String::from_str("emailaddr")));
    v.push((String::from_str("notifications"), String::from_str("notif")));
    v.push((String::from_str("conversions"), String::from_str("conv")));
    v
}

/// Reverse abbreviations for decoding: the forward table, swapped,
/// in the same order.
pub fn get_expansions() -> (r: Vec<(String, String)>)
    ensures
        r@.len() == spec_expansions().len(),
        forall|i: int|
            0 <= i < r@.len() ==> (#[trigger] r@[i]).0@ == spec_expansions()[i].0 && r@[i].1@
                == spec_expansions()[i].1,
{
    let fwd = get_abbreviations();
    let mut v: Vec<(String, String)> = Vec::new();
    let mut i: usize = 0;
    while i < fwd.len()
        invariant
            i <= fwd@.len(),
            fwd@.len() == spec_abbreviations().len(),
            forall|j: int|
                0 <= j < fwd@.len() ==> (#[trigger] fwd@[j]).0@ == spec_abbreviations()[j].0
                    && fwd@[j].1@ == spec_abbreviations()[j].1,
            v@.len() == i,
            forall|j: int|
                0 <= j < i ==> (#[trigger] v@[j]).0@ == spec_expansions()[j].0 && v@[j].1@
                    == spec_expansions()[j].1,
        decreases fwd@.len() - i,
    {
        let pair = &fwd[i];
        v.push((pair.1.clone(), pair.0.clone()));
        i = i + 1;
    }
    v
}

/// The first value bound to `key`, scanning `table` in order.
pub(crate) fn lookup_table(
    table: &Vec<(String, String)>,
    key: &String,
    tab: Ghost<Seq<(Seq<char>, Seq<char>)>>,
) -> (r: Option<String>)
    requires
        table@.len() == tab@.len(),
        forall|i: int|
            0 <= i < table@.len() ==> (#[trigger] table@[i]).0@ == tab@[i].0 && table@[i].1@
                == tab@[i].1,
    ensures
        match r {
            Some(v) => spec_lookup(tab@, key@) == Some(v@),
            None => spec_lookup(tab@, key@) is None,
        },
{
    let ghost spec_table = tab@;
    proof {
        assert(spec_table.subrange(0, spec_table.len() as int) =~= spec_table);
    }
    let mut i: usize = 0;
    while i < table.len()
        invariant
            spec_table == tab@,
            i <= table@.len(),
            table@.len() == spec_table.len(),
            forall|j: int|
                0 <= j < table@.len() ==> (#[trigger] table@[j]).0@ == spec_table[j].0
                    && table@[j].1@ == spec_table[j].1,
            spec_lookup(spec_table, key@) == spec_lookup(
                spec_table.subrange(i as int, spec_table.len() as int),
                key@,
            ),
        decreases table@.len() - i,
    {
        let ghost rest = spec_table.subrange(i as int, spec_table.len() as int);
        proof {
            assert(rest.len() > 0);
            assert(rest[0] == spec_table[i as int]);
            assert(rest.drop_first() =~= spec_table.subrange(
                i as int + 1,
                spec_table.len() as int,
            ));
        }
        if table[i].0.eq(key) {
            proof {
                assert(table@[i as int].1@ == spec_table[i as int].1);
                assert(spec_lookup(rest, key@) == Some(rest[0].1));
            }
            let found = table[i].1.clone();
            proof {
                assert(found@ == spec_table[i as int].1);
            }
            return Some(found);
        }
        proof {
            assert(spec_lookup(rest, key@) == spec_lookup(rest.drop_first(), key@));
        }
        i = i + 1;
    }
    proof {
        assert(spec_table.subrange(spec_table.len() as int, spec_table.len() as int).len() == 0);
    }
    None
}

} // verus!
