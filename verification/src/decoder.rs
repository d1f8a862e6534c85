//! The decoder: NEON text to a value tree.
//!
//! Blank input decodes to `Null`; anything else is tokenized by the
//! [`crate::lexer`] and parsed by the [`crate::parser`], whose
//! character-level specifications [`spec_tokenize`] and [`sp_parse`]
//! together pin down every decode result.

use vstd::prelude::*;
use crate::error::NeonError;
use crate::lexer::{Lexer, spec_tokenize, views};
use crate::parser::{Parser, sp_parse};
use crate::text::str_chars;
use vstd::string::StringSliceAdditionalSpecFns;
use crate::types::{NeonDecodeOptions, NeonStats, spec_dec_defaults};
use crate::value::{Value, ValueModel};

verus! {

/// What `char::is_whitespace` holds of a character: the Unicode
/// `White_Space` property.
pub uninterp spec fn spec_unicode_ws(c: char) -> bool;

/// Relies on `char::is_whitespace`: true exactly for `White_Space`
/// characters, which in ASCII are the control whitespace and the
/// space, and never a printable ASCII character.
#[verifier::external_body]
fn is_unicode_ws(c: char) -> (r: bool)
    ensures
        r == spec_unicode_ws(c),
        (c == ' ' || c == '\t' || c == '\n' || c == '\r') ==> r,
        ('!' <= c && c <= '~') ==> !r,
{
    c.is_whitespace()
}

/// Whether every character of `s` is whitespace.
pub open spec fn spec_blank(s: Seq<char>) -> bool {
    forall|i: int| 0 <= i < s.len() ==> spec_unicode_ws(#[trigger] s[i])
}

/// Whether the text is empty or all whitespace.
fn is_blank(s: &str) -> (r: bool)
    ensures
        r == spec_blank(s@),
{
    let cs = str_chars(s);
    let mut i: usize = 0;
    while i < cs.len()
        invariant
            i <= cs@.len(),
            cs@ == s@,
            forall|j: int| 0 <= j < i ==> spec_unicode_ws(#[trigger] s@[j]),
        decreases cs@.len() - i,
    {
        if !is_unicode_ws(cs[i]) {
            return false;
        }
        i = i + 1;
    }
    true
}

/// The NEON decoder: options and the statistics of the last call.
pub struct NeonDecoder {
    pub options: NeonDecodeOptions,
    pub stats: NeonStats,
}

impl NeonDecoder {
    /// A decoder with the given options, or the defaults.
    pub fn new(options: Option<NeonDecodeOptions>) -> (r: Self)
        ensures
            match options {
                Some(o) => r.options == o,
                None => spec_dec_defaults(r.options),
            },
    {
        let opts = match options {
            Some(o) => o,
            None => Default::default(),
        };
        NeonDecoder { options: opts, stats: Default::default() }
    }

    /// Decodes NEON text.  Blank input is `Null`; otherwise the
    /// result is exactly the parse of the token stream of the input.
    /// On success the statistics record the input's byte size; the
    /// JSON-side sizes belong to the boundary and stay zero.
    pub fn decode(&mut self, input: &str) -> (res: Result<Value, NeonError>)
        requires
            old(self).options.max_depth < usize::MAX,
            input@.len() + 1 < usize::MAX,
        ensures
            final(self).options == old(self).options,
            spec_blank(input@) ==> (res matches Ok(v) && v.deep() == ValueModel::Null
                && final(self).stats == old(self).stats),
            !spec_blank(input@) ==> ({
                let r = sp_parse(spec_tokenize(input@), old(self).options);
                match res {
                    Ok(v) => r matches Ok(vm) && v.deep() == vm && final(self).stats.input_size
                        == vstd::utf8::encode_utf8(input@).len() as usize,
                    Err(e) => r matches Err(em) && e@ == em && final(self).stats == old(self).stats,
                }
            }),
    {
        if is_blank(input) {
            return Ok(Value::Null);
        }
        let mut lexer = Lexer::new(input);
        let tokens = lexer.tokenize();
        proof {
            assert(views(Seq::<crate::types::Token>::empty()) =~= Seq::<
                crate::types::TokenModel,
            >::empty());
            assert(views(tokens@) =~= spec_tokenize(input@));
            crate::lexer::lemma_lex_from_len(input@, 0, 1, 1);
            assert(tokens@.len() == views(tokens@).len());
            assert(tokens@.len() < usize::MAX);
        }
        let opts = NeonDecodeOptions {
            strict: self.options.strict,
            expand_abbreviations: self.options.expand_abbreviations,
            max_depth: self.options.max_depth,
        };
        proof {
            assert(opts == self.options);
        }
        let mut parser = Parser::new(opts);
        let result = match parser.parse(tokens) {
            Ok(v) => v,
            Err(e) => {
                return Err(e);
            },
        };
        let isize = input.len();
        proof {
            assert(input.spec_bytes() == vstd::utf8::encode_utf8(input@));
        }
        self.stats = NeonStats {
            input_size: isize,
            output_size: 0,
            savings_percent: 0,
            input_tokens: 0,
            output_tokens: 0,
        };
        Ok(result)
    }

    /// The statistics of the last decode call.
    pub fn get_stats(&self) -> (r: &NeonStats)
        ensures
            *r == self.stats,
    {
        &self.stats
    }
}

/// Decodes a NEON string to a value with the given options, or the
/// defaults.  Blank input is `Null`; anything else is exactly the
/// parse of the input's token stream.
pub fn decode(input: &str, options: Option<NeonDecodeOptions>) -> (res: Result<Value, NeonError>)
    requires
        input@.len() + 1 < usize::MAX,
        match options {
            Some(o) => o.max_depth < usize::MAX,
            None => true,
        },
    ensures
        exists|o: NeonDecodeOptions|
            {
                &&& (match options {
                    Some(oo) => o == oo,
                    None => spec_dec_defaults(o),
                })
                &&& (spec_blank(input@) ==> (res matches Ok(v) && v.deep() == ValueModel::Null))
                &&& (!spec_blank(input@) ==> ({
                    let r = #[trigger] sp_parse(spec_tokenize(input@), o);
                    match res {
                        Ok(v) => r matches Ok(vm) && v.deep() == vm,
                        Err(e) => r matches Err(em) && e@ == em,
                    }
                }))
            },
{
    let mut decoder = NeonDecoder::new(options);
    let r = decoder.decode(input);
    proof {
        let o = decoder.options;
        assert((match options {
            Some(oo) => o == oo,
            None => spec_dec_defaults(o),
        }));
    }
    r
}

} // verus!
