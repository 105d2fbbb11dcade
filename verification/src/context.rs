//! Contexts binding a range list (and, for field mode, a delimiter) to a
//! line processor, and the processors themselves.
//!
//! A driver holds one context for a whole run and hands it, together
//! with each line, to a `LineProcessorT`; the three processors delegate
//! to the extraction functions and promise exactly their output.

use vstd::prelude::*;
use vstd::utf8::encode_utf8;

use crate::extract::byte_cut;
use crate::extract::char_cut;
use crate::extract::field_cut;
use crate::extract::join_fields;
use crate::extract::positive_pairs;
use crate::extract::process_line_by_byte;
use crate::extract::process_line_by_char_utf8;
use crate::extract::process_line_by_field_utf8;
use crate::merge::valid_pairs;
use crate::split::split_fields;

verus! {

/// A context for byte or character selection: a range list.
pub trait CharContextT {
    /// The ranges held by this context.
    spec fn pairs(&self) -> Seq<(usize, usize)>;

    fn ranged_pairs(&self) -> (r: &Vec<(usize, usize)>)
        ensures
            r@ == self.pairs(),
    ;
}

/// A context for field selection: a range list and a delimiter.
pub trait FieldContextT {
    /// The ranges held by this context.
    spec fn pairs(&self) -> Seq<(usize, usize)>;

    /// The delimiter held by this context.
    spec fn delim_chars(&self) -> Seq<char>;

    fn ranged_pairs(&self) -> (r: &Vec<(usize, usize)>)
        ensures
            r@ == self.pairs(),
    ;

    fn delim(&self) -> (r: &str)
        ensures
            r@ == self.delim_chars(),
    ;
}

/// Range list for byte or character selection.
pub struct CharContext<'a> {
    ranged_pairs: &'a Vec<(usize, usize)>,
}

impl<'a> CharContext<'a> {
    pub fn new(ranged_pairs: &'a Vec<(usize, usize)>) -> (r: CharContext<'a>)
        ensures
            r.pairs() == ranged_pairs@,
    {
        CharContext { ranged_pairs }
    }
}

impl<'a> CharContextT for CharContext<'a> {
    closed spec fn pairs(&self) -> Seq<(usize, usize)> {
        self.ranged_pairs@
    }

    fn ranged_pairs(&self) -> (r: &Vec<(usize, usize)>) {
        self.ranged_pairs
    }
}

/// Range list and delimiter for field selection.
pub struct FieldContext<'a> {
    ranged_pairs: &'a Vec<(usize, usize)>,
    delim: &'a str,
}

impl<'a> FieldContext<'a> {
    pub fn new(ranged_pairs: &'a Vec<(usize, usize)>, delim: &'a str) -> (r: FieldContext<'a>)
        ensures
            r.pairs() == ranged_pairs@,
            r.delim_chars() == delim@,
    {
        FieldContext { ranged_pairs, delim }
    }
}

impl<'a> FieldContextT for FieldContext<'a> {
    closed spec fn pairs(&self) -> Seq<(usize, usize)> {
        self.ranged_pairs@
    }

    closed spec fn delim_chars(&self) -> Seq<char> {
        self.delim@
    }

    fn ranged_pairs(&self) -> (r: &Vec<(usize, usize)>) {
        self.ranged_pairs
    }

    fn delim(&self) -> (r: &str) {
        self.delim
    }
}

/// A per-line processor: turns one line into its output bytes.
pub trait LineProcessorT<C> {
    /// When the context suits this processor.
    spec fn ctx_ok(&self, context: &C) -> bool;

    /// The bytes this processor returns for a line.
    spec fn output_spec(&self, line: Seq<char>, context: &C) -> Seq<u8>;

    fn process(&self, line: &str, context: &C) -> (r: Vec<u8>)
        requires
            self.ctx_ok(context),
        ensures
            r@ == self.output_spec(line@, context),
    ;
}

/// Processor selecting Unicode characters.
pub struct CharUtf8LineProcessor {}

impl<C: CharContextT> LineProcessorT<C> for CharUtf8LineProcessor {
    open spec fn ctx_ok(&self, context: &C) -> bool {
        positive_pairs(context.pairs())
    }

    open spec fn output_spec(&self, line: Seq<char>, context: &C) -> Seq<u8> {
        encode_utf8(char_cut(line, context.pairs())) + seq![10u8]
    }

    fn process(&self, line: &str, context: &C) -> (r: Vec<u8>) {
        process_line_by_char_utf8(line, context.ranged_pairs())
    }
}

/// Processor selecting raw bytes.
pub struct ByteLineProcessor {}

impl<C: CharContextT> LineProcessorT<C> for ByteLineProcessor {
    open spec fn ctx_ok(&self, context: &C) -> bool {
        valid_pairs(context.pairs())
    }

    open spec fn output_spec(&self, line: Seq<char>, context: &C) -> Seq<u8> {
        byte_cut(encode_utf8(line), context.pairs()) + seq![10u8]
    }

    fn process(&self, line: &str, context: &C) -> (r: Vec<u8>) {
        process_line_by_byte(line, context.ranged_pairs())
    }
}

/// Processor selecting delimiter-separated fields.
pub struct FieldUtf8LineProcessor {}

impl<C: FieldContextT> LineProcessorT<C> for FieldUtf8LineProcessor {
    open spec fn ctx_ok(&self, context: &C) -> bool {
        valid_pairs(context.pairs()) && context.delim_chars().len() >= 1
    }

    open spec fn output_spec(&self, line: Seq<char>, context: &C) -> Seq<u8> {
        encode_utf8(
            join_fields(
                field_cut(split_fields(line, context.delim_chars()), context.pairs()),
                context.delim_chars(),
            ),
        ) + seq![10u8]
    }

    fn process(&self, line: &str, context: &C) -> (r: Vec<u8>) {
        process_line_by_field_utf8(line, context.ranged_pairs(), context.delim())
    }
}

/// Tag for a run in byte or character mode; the line loop around it
/// lives with the caller.
pub struct CharProcessor {}

/// Tag for a run in field mode; the line loop around it lives with the
/// caller.
pub struct FieldProcessor {}

} // verus!
