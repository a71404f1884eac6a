//! Rewriting the content of one drawing: its bytes are decoded, the sheet
//! label is filled into the text, and the text is encoded again.

use crate::codec::{
    decode_content, encode_content, legacy_decoded, legacy_encoded, utf8_len, MAX_CODEC_LEN,
};
use crate::label::{lemma_sheet_label_is_plain, sheet_label_text};
use crate::text::{
    contains_placeholder, lemma_rewritten_has_no_placeholder, rewrite_text, rewritten_text,
};
use vstd::prelude::*;

verus! {

/// The new content of a drawing.
pub struct Rewritten {
    /// The bytes that take the place of the old content.
    pub bytes: Vec<u8>,
    /// Whether the old content held malformed bytes; the caller is expected
    /// to warn of them.
    pub had_errors: bool,
}

/// The text of a drawing with content `data`, after `label` was filled in.
pub open spec fn relabelled_text(data: Seq<u8>, label: Seq<char>) -> Seq<char> {
    rewritten_text(legacy_decoded(data).0, label)
}

/// Whether a drawing with content `data` can be rewritten with `label`:
/// neither the content nor the new text is longer than the encoding takes.
pub open spec fn can_rewrite(data: Seq<u8>, label: Seq<char>) -> bool {
    data.len() <= MAX_CODEC_LEN && utf8_len(relabelled_text(data, label)) <= MAX_CODEC_LEN
}

/// The new content of a drawing whose content is `data` and whose sheet
/// label is `label`.
///
/// The content is decoded; in each line of the text every placeholder is
/// replaced by `label`; the lines are joined by single line feeds; and the
/// result is encoded. This is done whether or not the text holds a
/// placeholder. Malformed input does not stop it: it is reported in
/// `had_errors`. Nothing is returned only where the content or the new text
/// is longer than the encoding takes.
pub fn rewrite_content(data: &[u8], label: &str) -> (rewritten: Option<Rewritten>)
    ensures
        rewritten is Some <==> can_rewrite(data@, label@),
        rewritten matches Some(r) ==> {
            &&& r.bytes@ == legacy_encoded(relabelled_text(data@, label@))
            &&& r.had_errors == legacy_decoded(data@).1
        },
{
    match decode_content(data) {
        Some(decoded) => {
            let text = rewrite_text(decoded.text.as_str(), label);
            match encode_content(text.as_str()) {
                Some(bytes) => Some(Rewritten { bytes, had_errors: decoded.had_errors }),
                None => None,
            }
        },
        None => None,
    }
}

/// Whatever a drawing held, once the label of a sheet is filled in, every
/// placeholder of its text has given way to that label and none is left.
pub proof fn lemma_sheet_label_replaces_every_placeholder(data: Seq<u8>, position: nat, total: nat)
    ensures
        !contains_placeholder(relabelled_text(data, sheet_label_text(position, total))),
{
    lemma_sheet_label_is_plain(position, total);
    lemma_rewritten_has_no_placeholder(legacy_decoded(data).0, sheet_label_text(position, total));
}

} // verus!
