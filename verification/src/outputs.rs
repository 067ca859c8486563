//! Where the results of the commands are written.

use vstd::prelude::*;
use crate::path;
use crate::text;

verus! {

/// A file to write, and the directory to create first, if there is one to create.
#[derive(Debug)]
pub struct Target {
    pub dir: Option<String>,
    pub file: String,
}

/// What is to be written.
pub struct TargetModel {
    pub dir: Option<Seq<char>>,
    pub file: Seq<char>,
}

impl View for Target {
    type V = TargetModel;

    open spec fn view(&self) -> TargetModel {
        TargetModel {
            dir: match self.dir {
                Some(dir) => Some(dir@),
                None => None,
            },
            file: self.file@,
        }
    }
}

/// A file in its own directory.
pub open spec fn in_place(file: Seq<char>) -> TargetModel {
    TargetModel { dir: path::parent(file), file }
}

/// Where a comparison is written: into a file that is named `.md`, or into `comparison.md` in
/// a directory of any other name.
pub open spec fn comparison_target(output: Seq<char>) -> TargetModel {
    if path::extension(output) == Some("md"@) {
        in_place(output)
    } else {
        TargetModel { dir: Some(output), file: path::joined(output, "comparison.md"@) }
    }
}

/// Where a converted trace is written: into the file that is given, or beside the input.
pub open spec fn converted_target(input: Seq<char>, output: Option<Seq<char>>) -> TargetModel {
    match output {
        Some(file) => in_place(file),
        None => in_place(path::with_extension(input, "json"@)),
    }
}

/// What a trace is called: the name of its file without the extension, or its path if it has
/// no such name.
pub open spec fn trace_title(p: Seq<char>) -> Seq<char> {
    match path::file_stem(p) {
        Some(stem) => stem,
        None => p,
    }
}

/// A file in its own directory.
fn beside(file: String) -> (r: Target)
    ensures
        r@ == in_place(file@),
{
    let dir = path::parent_of(file.as_str());
    Target { dir, file }
}

/// Where a merged trace is written.
pub fn merge_output(output: String) -> (r: Target)
    ensures
        r@ == in_place(output@),
{
    beside(output)
}

/// Where a comparison is written.
pub fn analyze_output(output: String) -> (r: Target)
    ensures
        r@ == comparison_target(output@),
{
    let markdown = match path::extension_of(output.as_str()) {
        Some(ext) => text::same(ext.as_str(), "md"),
        None => false,
    };
    if markdown {
        beside(output)
    } else {
        let file = path::join_paths(output.as_str(), "comparison.md");
        Target { dir: Some(output), file }
    }
}

/// Where a converted trace is written.
pub fn convert_output(input: &str, output: Option<String>) -> (r: Target)
    ensures
        r@ == converted_target(
            input@,
            match output {
                Some(file) => Some(file@),
                None => None,
            },
        ),
{
    match output {
        Some(file) => beside(file),
        None => beside(path::replace_extension(input, "json")),
    }
}

/// What a trace is called.
pub fn trace_name(p: &str) -> (r: String)
    ensures
        r@ == trace_title(p@),
{
    match path::stem_of_path(p) {
        Some(stem) => stem,
        None => text::copy_of(p),
    }
}

/// A comparison goes into the file that is named, if its extension is `md`, after its parent is
/// created; and otherwise into `comparison.md` in the directory that is named, which is created.
pub proof fn law_comparison_goes_where_it_is_named(output: Seq<char>)
    ensures
        path::extension(output) == Some("md"@) ==> comparison_target(output).file == output
            && comparison_target(output).dir == path::parent(output),
        path::extension(output) != Some("md"@) ==> comparison_target(output).dir == Some(output)
            && comparison_target(output).file == path::joined(output, "comparison.md"@),
{
}

/// What is merged or converted goes into the file that is named, after its parent is created; a
/// converted trace without a name goes beside the input, with the extension `json`.
pub proof fn law_traces_go_where_they_are_named(input: Seq<char>, output: Seq<char>)
    ensures
        in_place(output).file == output,
        in_place(output).dir == path::parent(output),
        converted_target(input, Some(output)).file == output,
        converted_target(input, Some(output)).dir == path::parent(output),
        converted_target(input, None).file == path::with_extension(input, "json"@),
        converted_target(input, None).dir == path::parent(path::with_extension(input, "json"@)),
{
}

/// A trace is called by the stem of its file, and by its path where it has none.
pub proof fn law_trace_is_called_by_its_stem(p: Seq<char>)
    ensures
        path::file_stem(p) is Some ==> trace_title(p) == path::file_stem(p)->0,
        path::file_stem(p) is None ==> trace_title(p) == p,
{
}

} // verus!
