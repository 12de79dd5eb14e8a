//! Where a converted document belongs: the path of the document, with `.html` in
//! place of the markup's extension.

use vstd::prelude::*;
use vstd::utf8::*;
use crate::document::HTMLFile;
use crate::encoding::{lemma_encode_concat, lemma_encode_last, lemma_suffix_encoded, text_of};
use crate::render::push_str;

verus! {

/// The extension of a document in markup.
pub open spec fn markup_extension() -> Seq<char> {
    ".jamf"@
}

/// The extension of a converted document.
pub open spec fn html_extension() -> Seq<char> {
    ".html"@
}

/// Whether `path` names a document in markup: it ends with the markup's
/// extension, and a file name that is not empty stands before it.
pub open spec fn has_markup_extension(path: Seq<char>) -> bool {
    let stem = path.len() - markup_extension().len();
    &&& markup_extension().is_suffix_of(path)
    &&& stem > 0
    &&& path[stem - 1] != '/'
}

/// `path` with the HTML extension in place of the markup's.
pub open spec fn html_path(path: Seq<char>) -> Seq<char> {
    path.take(path.len() - markup_extension().len()) + html_extension()
}

/// Whether `bytes` end with `ending`.
fn ends_with(bytes: &[u8], ending: &[u8]) -> (found: bool)
    ensures
        found == ending@.is_suffix_of(bytes@),
{
    if bytes.len() < ending.len() {
        return false;
    }
    let start = bytes.len() - ending.len();
    let mut at: usize = 0;
    while at < ending.len() && bytes[start + at] == ending[at]
        invariant
            start + ending.len() == bytes.len(),
            at <= ending.len(),
            forall|i: int| 0 <= i < at ==> bytes@[start + i] == ending@[i],
        decreases ending.len() - at,
    {
        at += 1;
    }
    proof {
        let tail = bytes@.subrange(start as int, bytes.len() as int);
        if at < ending.len() {
            assert(tail[at as int] != ending@[at as int]);
        } else {
            assert(ending@ =~= tail);
        }
    }
    at == ending.len()
}

/// The number of bytes of `path` before the markup's extension, if `path` names a
/// document in markup.
fn stem_len(path: &str) -> (stem: Option<usize>)
    ensures
        stem is Some <==> has_markup_extension(path@),
        stem matches Some(len) ==> len <= encode_utf8(path@).len() && encode_utf8(path@).take(
            len as int,
        ) == encode_utf8(path@.take(path@.len() - markup_extension().len())),
{
    let bytes = path.as_bytes();
    let extension = ".jamf".as_bytes();
    proof {
        reveal_strlit(".jamf");
        lemma_suffix_encoded(path@, markup_extension());
    }
    if !ends_with(bytes, extension) || bytes.len() == extension.len() {
        proof {
            if markup_extension().is_suffix_of(path@) {
                let front = path@.take(path@.len() - markup_extension().len());
                if front.len() > 0 {
                    lemma_encode_last(front);
                }
            }
        }
        return None;
    }
    let stem = bytes.len() - extension.len();
    proof {
        let front = path@.take(path@.len() - markup_extension().len());
        assert(front.len() > 0) by {
            if front.len() == 0 {
                assert(encode_utf8(front).len() == 0);
            }
        }
        lemma_encode_last(front);
        assert(encode_utf8(front).last() == bytes@[stem - 1]);
        assert(front.last() == path@[path@.len() - markup_extension().len() - 1]);
    }
    if bytes[stem - 1] == 0x2f {
        None
    } else {
        Some(stem)
    }
}

/// Whether `path` names a document in markup.
pub fn is_markup_path(path: &str) -> (markup: bool)
    ensures
        markup == has_markup_extension(path@),
{
    stem_len(path).is_some()
}

impl HTMLFile {
    /// The path to write the converted document to: the path of the document it
    /// came from, with `.html` in place of the markup's extension. There is none
    /// where that path does not name a document in markup.
    pub fn output_path(&self) -> (target: Option<String>)
        ensures
            match target {
                Some(path) => has_markup_extension(self.path@) && path@ == html_path(self.path@),
                None => !has_markup_extension(self.path@),
            },
    {
        match stem_len(self.path.as_str()) {
            Some(stem) => {
                let bytes = self.path.as_str().as_bytes();
                let mut target: Vec<u8> = Vec::new();
                let mut at: usize = 0;
                while at < stem
                    invariant
                        at <= stem <= bytes.len(),
                        target@ == bytes@.take(at as int),
                    decreases stem - at,
                {
                    target.push(bytes[at]);
                    at += 1;
                    assert(target@ =~= bytes@.take(at as int));
                }
                push_str(&mut target, ".html");
                proof {
                    let front = self.path@.take(self.path@.len() - markup_extension().len());
                    lemma_encode_concat(front, html_extension());
                    encode_utf8_valid_utf8(html_path(self.path@));
                    encode_utf8_decode_utf8(html_path(self.path@));
                }
                Some(text_of(target))
            },
            None => None,
        }
    }
}

} // verus!
