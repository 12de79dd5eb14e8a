//! Documents before and after conversion, and the text that is put around them.

use vstd::prelude::*;
use vstd::string::StringExecFns;
use crate::grammar::tokenize;
use crate::render::render_text;

verus! {

/// A document in markup: its text and the path it was read from.
#[derive(Debug)]
pub struct MDFile {
    pub contents: String,
    pub path: String,
}

/// A converted document: its HTML and the path of the document it came from.
#[derive(Debug)]
pub struct HTMLFile {
    pub contents: String,
    pub path: String,
}

/// The text written before and after every converted document.
pub struct Configuration {
    pub preamble: String,
    pub postamble: String,
}

/// The page made of a document: the preamble, the rendered text, the postamble.
pub open spec fn page(text: Seq<char>, preamble: Seq<char>, postamble: Seq<char>) -> Seq<char> {
    preamble + render_text(tokenize(text), 0) + postamble
}

impl MDFile {
    /// Converts the document and puts `config`'s preamble and postamble around it.
    /// The result keeps the document's path.
    pub fn to_html(&self, config: &Configuration) -> (html: HTMLFile)
        ensures
            html.contents@ == page(self.contents@, config.preamble@, config.postamble@),
            html.path@ == self.path@,
    {
        let mut converted_text = String::new();
        converted_text.append(config.preamble.as_str());
        converted_text.append(self.get_html().as_str());
        converted_text.append(config.postamble.as_str());
        proof {
            assert(converted_text@ =~= page(self.contents@, config.preamble@, config.postamble@));
        }
        HTMLFile { contents: converted_text, path: self.path.clone() }
    }
}

/// Converts every document of `files`, in their order.
pub fn convert_all_files_to_html(files: &Vec<MDFile>, config: &Configuration) -> (html_files: Vec<
    HTMLFile,
>)
    ensures
        html_files.len() == files.len(),
        forall|i: int|
            0 <= i < files.len() ==> {
                &&& (#[trigger] html_files[i]).contents@ == page(
                    files[i].contents@,
                    config.preamble@,
                    config.postamble@,
                )
                &&& html_files[i].path@ == files[i].path@
            },
{
    let mut html_files: Vec<HTMLFile> = Vec::new();
    let mut index: usize = 0;
    while index < files.len()
        invariant
            index <= files.len(),
            html_files.len() == index,
            forall|i: int|
                0 <= i < index ==> {
                    &&& (#[trigger] html_files[i]).contents@ == page(
                        files[i].contents@,
                        config.preamble@,
                        config.postamble@,
                    )
                    &&& html_files[i].path@ == files[i].path@
                },
        decreases files.len() - index,
    {
        html_files.push(files[index].to_html(config));
        index += 1;
    }
    html_files
}

} // verus!
