//! What comes out of shaping and of reordering, and the two capabilities the registry depends on
//! rather than implements.

use vstd::prelude::*;

use crate::glyph::{FontIndex, GlyphIndex, GlyphKey, Offset, PlainGlyph, RasterGlyph};

verus! {

/// A piece of shaped text: a character shaping left alone, or a glyph positioned by the font's
/// own rules, to a quarter of a pixel.
#[derive(Clone, Copy, Debug, PartialEq, Eq)]
pub enum Piece {
    Verbatim(char),
    Glyph(GlyphKey),
}

/// One line of text in the order it is read, as codepoints paired with the index of the style
/// section each came from.
#[derive(Clone, Debug, Default, PartialEq, Eq)]
pub struct VisualLine {
    pub codepoints: Vec<u32>,
    pub sections: Vec<u32>,
}

/// A shaped glyph as a tool wants to see it: everything needed to draw it, plus the character it
/// came through unchanged as, where there was one.
#[derive(Clone, Copy, Debug, PartialEq, Eq)]
pub struct InspectedGlyph {
    pub font: FontIndex,
    pub glyph: GlyphIndex,
    pub offset: Offset,
    pub advance: i16,
    pub rtl: bool,
    pub codepoint: Option<u32>,
}

/// A character left alone.
pub open spec fn verbatim(ch: char) -> Piece {
    Piece::Verbatim(ch)
}

/// Every character of a text left alone.
pub open spec fn verbatim_pieces(text: Seq<char>) -> Seq<Piece>
    decreases text.len(),
{
    if text.len() == 0 {
        Seq::empty()
    } else {
        verbatim_pieces(text.drop_last()).push(verbatim(text.last()))
    }
}

/// A text left alone has one piece per character.
pub proof fn lemma_verbatim_length(text: Seq<char>)
    ensures
        verbatim_pieces(text).len() == text.len(),
    decreases text.len(),
{
    if text.len() > 0 {
        lemma_verbatim_length(text.drop_last());
    }
}

/// Turning a string into glyphs, and a shaped string back into reading order.
///
/// What a shaper gives back is stated as a relation rather than a function: a shaper may hold
/// fonts that change between calls, so the same text need not shape the same way twice. Each
/// method gives back a result its relation allows.
pub trait TextShaping {
    /// Whether `pieces` is a result this shaper can give for `text`. A shaper that says no more
    /// allows any result.
    open spec fn shapes(&self, text: Seq<char>, pieces: Seq<Piece>) -> bool {
        true
    }

    /// Whether `lines` is a result this shaper can give when reordering `text`, told `directions`,
    /// `sections` and `line_breaks`. A shaper that says no more allows any result.
    open spec fn reorders(
        &self,
        text: Seq<char>,
        directions: Seq<Option<bool>>,
        sections: Seq<u32>,
        line_breaks: Seq<u32>,
        lines: Seq<VisualLine>,
    ) -> bool {
        true
    }

    /// Shapes a whole string, in logical order.
    fn shape(&self, text: &str) -> (pieces: Vec<Piece>)
        ensures
            self.shapes(text@, pieces@),
    ;

    /// Reorders an already-shaped string into lines in visual order.
    ///
    /// `directions` holds, for each character of `text`, whether it stands for a shaped glyph and
    /// whether that glyph was shaped right to left. `sections` and `line_breaks` are indexed in
    /// UTF-16 code units, which is how MapLibre counts.
    fn reorder(
        &self,
        text: &str,
        directions: &Vec<Option<bool>>,
        sections: &[u32],
        line_breaks: &[u32],
    ) -> (lines: Vec<VisualLine>)
        ensures
            self.reorders(text@, directions@, sections@, line_breaks@, lines@),
    ;
}

/// Drawing a glyph, and answering what a lone codepoint would draw as.
///
/// As with [`TextShaping`], what comes back is stated as a relation: the fonts drawn from may
/// change between calls.
pub trait GlyphRasterizing {
    /// Whether `raster` is a drawing this rasterizer can give for a glyph at an offset. A
    /// rasterizer that says no more allows any drawing.
    open spec fn draws(&self, font: FontIndex, glyph: GlyphIndex, offset: Offset, raster: RasterGlyph) -> bool {
        true
    }

    /// Whether `plain` is an answer this rasterizer can give for what a lone codepoint draws as.
    /// A rasterizer that says no more allows any answer.
    open spec fn answers_plain(&self, codepoint: u32, plain: Option<PlainGlyph>) -> bool {
        true
    }

    /// Draws a glyph into a distance field, offset from the pen position by `offset`.
    fn rasterize(&self, font: FontIndex, glyph: GlyphIndex, offset: Offset) -> (raster: RasterGlyph)
        ensures
            self.draws(font, glyph, offset, raster),
    ;

    /// The glyph a codepoint draws as when nothing has shaped it, in the first font that has one.
    fn plain_glyph(&self, codepoint: u32) -> (plain: Option<PlainGlyph>)
        ensures
            self.answers_plain(codepoint, plain),
    ;
}

} // verus!
