//! Downloading trace files: what to ask the remote hosts, and what then to run.

use vstd::prelude::*;
use crate::path;
use crate::remote;
use crate::remote::{
    FileModel, FindError, FindFault, PathKind, Query, QueryModel, RemoteFileInfo, SshUrl, SshUrlError,
    StatError, UrlModel,
};
use crate::text;

verus! {

/// Files larger than this many bytes are compressed before they are copied, unless told
/// otherwise: 500 MB.
pub const DEFAULT_COMPRESS_THRESHOLD: u64 = 524_288_000;

// ---------------------------------------------------------------------------------------------
// Local paths

/// A path that ends with `.gz`: the path itself if it does so already, or if its file has that
/// extension.
pub open spec fn gz_path(p: Seq<char>) -> Seq<char> {
    if text::has_suffix(p, ".gz"@) || path::extension(p) == Some("gz"@) {
        p
    } else {
        p + ".gz"@
    }
}

/// Ensures that a path ends with `.gz`, appending it only if it is not already there.
/// E.g. `foo.json` becomes `foo.json.gz`, and `foo.json.gz` stays.
pub fn ensure_gz_extension(p: &str) -> (r: String)
    ensures
        r@ == gz_path(p@),
{
    if text::ends_with(p, ".gz") {
        return text::copy_of(p);
    }
    match path::extension_of(p) {
        Some(ext) => if text::same(ext.as_str(), "gz") {
            return text::copy_of(p);
        },
        None => {},
    }
    text::copy_of(p).concat(".gz")
}

/// Ensuring the extension twice is ensuring it once. What comes of it ends with `.gz` or has that
/// extension, and a path that ends with `.gz` stays as it is.
pub proof fn law_gz_path_is_kept(p: Seq<char>)
    ensures
        gz_path(gz_path(p)) == gz_path(p),
        text::has_suffix(gz_path(p), ".gz"@) || path::extension(gz_path(p)) == Some("gz"@),
        text::has_suffix(p, ".gz"@) ==> gz_path(p) == p,
{
    if !text::has_suffix(p, ".gz"@) && path::extension(p) != Some("gz"@) {
        let q = p + ".gz"@;
        assert(q.skip(p.len() as int) =~= ".gz"@);
        assert(text::has_suffix(q, ".gz"@));
    }
}

/// The file has the extension once it is ensured, unless all of its name is `.gz`: it has it before,
/// or something else ends the path to which it is appended.
pub proof fn law_gz_path_has_the_extension(p: Seq<char>)
    requires
        path::extension(p) == Some("gz"@) || (!text::has_suffix(p, ".gz"@) && p.len() > 0 && p.last()
            != '/'),
    ensures
        path::extension(gz_path(p)) == Some("gz"@),
{
    if path::extension(p) != Some("gz"@) {
        reveal_strlit(".gz");
        reveal_strlit("gz");
        let q = p + ".gz"@;
        let n = q.len() as int;
        assert(q[n - 3] == '.' && q[n - 2] == 'g' && q[n - 1] == 'z');
        assert(q[n - 4] == p.last());
        let base = path::body_start(q) as int;
        assert(base <= n - 4) by {
            if p.len() == 1 {
                assert(q[0] == p[0]);
                assert(q[1] == '.');
            }
        }
        let body = q.skip(base);
        text::lemma_past_last_is_last(body, '/');
        assert(path::tail_start(q) <= n - 4) by {
            let k = text::past_last(body, '/') as int;
            if base + k > n - 4 {
                assert(body[k - 1] == q[base + k - 1]);
            }
        }
        let name = path::tail(q);
        let m = name.len() as int;
        assert(name[m - 3] == '.' && name[m - 2] == 'g' && name[m - 1] == 'z');
        assert(path::trimmed(q) == q);
        assert(path::file_name(q) == Some(name));
        text::lemma_past_last(name, '.', (m - 2) as nat);
        assert(name.skip(m - 2) =~= "gz"@);
    }
}

/// Where a single file is put: inside `output` if that is a directory or is written as one, and
/// at `output` itself otherwise.
pub open spec fn single_output(
    remote_path: Seq<char>,
    output: Seq<char>,
    output_is_dir: bool,
) -> Seq<char> {
    if text::has_suffix(output, "/"@) || output_is_dir {
        path::joined(
            output,
            match path::file_name(remote_path) {
                Some(name) => name,
                None => "trace.json"@,
            },
        )
    } else {
        output
    }
}

/// Determines the local output path for a single-file download.
///
/// If `output` ends with `/` or is an existing directory, the remote file name is placed inside
/// it. Otherwise `output` is the target file name.
pub fn resolve_single_output(remote_path: &str, output: &str, output_is_dir: bool) -> (r: String)
    ensures
        r@ == single_output(remote_path@, output@, output_is_dir),
{
    if text::ends_with(output, "/") || output_is_dir {
        match path::name_of(remote_path) {
            Some(name) => path::join_paths(output, name.as_str()),
            None => path::join_paths(output, "trace.json"),
        }
    } else {
        text::copy_of(output)
    }
}

/// The path of a file relative to the directory that was listed.
pub open spec fn relative_path(dir: Seq<char>, file: Seq<char>) -> Seq<char> {
    text::drop_leading(
        if text::has_prefix(file, dir) {
            file.skip(dir.len() as int)
        } else {
            file
        },
        '/',
    )
}

fn relative_text(dir: &str, file: &str) -> (r: String)
    ensures
        r@ == relative_path(dir@, file@),
{
    match text::strip_prefix(file, dir) {
        Some(rest) => text::without_leading(rest.as_str(), '/'),
        None => text::without_leading(file, '/'),
    }
}

// ---------------------------------------------------------------------------------------------
// Steps

/// One thing to do in a download.
#[derive(Debug)]
pub enum Step {
    /// Create a local directory, with those above it.
    MakeDir(String),
    /// Run a command on a remote host.
    Ssh { host: String, command: String },
    /// Copy a remote file to a local path.
    Scp { source: String, dest: String },
    /// Stop: the remote path names no file.
    Refuse(String),
}

/// What is to be done.
pub enum StepModel {
    MakeDir(Seq<char>),
    Ssh { host: Seq<char>, command: Seq<char> },
    Scp { source: Seq<char>, dest: Seq<char> },
    Refuse(Seq<char>),
}

impl View for Step {
    type V = StepModel;

    open spec fn view(&self) -> StepModel {
        match *self {
            Step::MakeDir(dir) => StepModel::MakeDir(dir@),
            Step::Ssh { host, command } => StepModel::Ssh { host: host@, command: command@ },
            Step::Scp { source, dest } => StepModel::Scp { source: source@, dest: dest@ },
            Step::Refuse(p) => StepModel::Refuse(p@),
        }
    }
}

/// The steps that a vector holds.
pub open spec fn steps_of(v: Seq<Step>) -> Seq<StepModel> {
    Seq::new(v.len(), |i: int| v[i]@)
}

/// Whether a file is compressed on the remote host before it is copied.
pub open spec fn compresses(info: FileModel, no_compress: bool, threshold: u64) -> bool {
    !no_compress && !text::has_suffix(info.path, ".gz"@) && info.size_bytes > threshold
}

/// Copying one remote file, into a directory that is there.
pub open spec fn fetch_steps(host: Seq<char>, remote: Seq<char>, local: Seq<char>) -> Seq<StepModel> {
    let copy = StepModel::Scp { source: remote::scp_source(host, remote), dest: local };
    match path::parent(local) {
        Some(dir) => seq![StepModel::MakeDir(dir), copy],
        None => seq![copy],
    }
}

/// Downloading one file: compressed first if it is large.
pub open spec fn file_steps(
    host: Seq<char>,
    info: FileModel,
    local: Seq<char>,
    no_compress: bool,
    threshold: u64,
) -> Seq<StepModel> {
    if compresses(info, no_compress, threshold) {
        seq![StepModel::Ssh { host, command: "gzip -kf '"@ + info.path + "'"@ }] + fetch_steps(
            host,
            info.path + ".gz"@,
            gz_path(local),
        )
    } else {
        fetch_steps(host, info.path, local)
    }
}

fn push_fetch(out: &mut Vec<Step>, host: &str, remote: &str, local: String)
    ensures
        steps_of(final(out)@) == steps_of(old(out)@) + fetch_steps(host@, remote@, local@),
{
    let source = remote::scp_text(host, remote);
    match path::parent_of(local.as_str()) {
        Some(dir) => {
            out.push(Step::MakeDir(dir));
        },
        None => {},
    }
    out.push(Step::Scp { source, dest: local });
    assert(steps_of(out@) =~= steps_of(old(out)@) + fetch_steps(host@, remote@, local@));
}

/// Appends the steps that download a single remote file to `local`, compressing on the remote
/// host first if it exceeds the threshold.
pub fn download_one_file(
    out: &mut Vec<Step>,
    host: &str,
    info: &RemoteFileInfo,
    local: String,
    no_compress: bool,
    threshold: u64,
)
    ensures
        steps_of(final(out)@) == steps_of(old(out)@) + file_steps(
            host@,
            info@,
            local@,
            no_compress,
            threshold,
        ),
{
    if !no_compress && !text::ends_with(info.path.as_str(), ".gz") && info.size_bytes > threshold {
        let mut command = text::copy_of("gzip -kf '");
        command.append(info.path.as_str());
        command.append("'");
        let step = Step::Ssh { host: text::copy_of(host), command };
        let ghost model = step@;
        let ghost before = steps_of(out@);
        out.push(step);
        assert(steps_of(out@) == before.push(model));
        let remote = info.path.clone().concat(".gz");
        push_fetch(out, host, remote.as_str(), ensure_gz_extension(local.as_str()));
        assert(steps_of(out@) =~= before + file_steps(host@, info@, local@, no_compress, threshold));
    } else {
        push_fetch(out, host, info.path.as_str(), local);
    }
}

/// A classified remote path.
#[derive(Debug)]
pub enum RemoteKind {
    File(RemoteFileInfo),
    Dir(Vec<RemoteFileInfo>),
}

/// What a remote path leads to.
pub enum KindModel {
    File(FileModel),
    Dir(Seq<FileModel>),
}

impl View for RemoteKind {
    type V = KindModel;

    open spec fn view(&self) -> KindModel {
        match *self {
            RemoteKind::File(info) => KindModel::File(info@),
            RemoteKind::Dir(files) => KindModel::Dir(remote::files_of(files@)),
        }
    }
}

/// A source and what it leads to.
#[derive(Debug)]
pub struct Source {
    pub url: SshUrl,
    pub kind: RemoteKind,
}

/// What a source is.
pub struct SourceModel {
    pub url: UrlModel,
    pub kind: KindModel,
}

impl View for Source {
    type V = SourceModel;

    open spec fn view(&self) -> SourceModel {
        SourceModel { url: self.url@, kind: self.kind@ }
    }
}

/// The sources that a vector holds.
pub open spec fn sources_of(v: Seq<Source>) -> Seq<SourceModel> {
    Seq::new(v.len(), |i: int| v[i]@)
}

/// Downloading the files of a directory, each to the same place below `output`.
pub open spec fn dir_steps(
    url: UrlModel,
    files: Seq<FileModel>,
    output: Seq<char>,
    no_compress: bool,
    threshold: u64,
) -> Seq<StepModel>
    decreases files.len(),
{
    if files.len() == 0 {
        seq![]
    } else {
        dir_steps(url, files.drop_last(), output, no_compress, threshold) + file_steps(
            url.host,
            files.last(),
            path::joined(output, relative_path(url.remote_path, files.last().path)),
            no_compress,
            threshold,
        )
    }
}

/// Downloading a source into the directory `output`.
pub open spec fn source_steps(
    source: SourceModel,
    output: Seq<char>,
    no_compress: bool,
    threshold: u64,
) -> Seq<StepModel> {
    match source.kind {
        KindModel::File(info) => match path::file_name(info.path) {
            Some(name) => file_steps(
                source.url.host,
                info,
                path::joined(output, name),
                no_compress,
                threshold,
            ),
            None => seq![StepModel::Refuse(info.path)],
        },
        KindModel::Dir(files) => dir_steps(source.url, files, output, no_compress, threshold),
    }
}

/// Whether steps end with a refusal.
pub open spec fn refused(steps: Seq<StepModel>) -> bool {
    steps.len() > 0 && steps.last() is Refuse
}

/// Downloading sources one after the other, up to a refusal.
pub open spec fn all_steps(
    sources: Seq<SourceModel>,
    output: Seq<char>,
    no_compress: bool,
    threshold: u64,
) -> Seq<StepModel>
    decreases sources.len(),
{
    if sources.len() == 0 {
        seq![]
    } else {
        let before = all_steps(sources.drop_last(), output, no_compress, threshold);
        if refused(before) {
            before
        } else {
            before + source_steps(sources.last(), output, no_compress, threshold)
        }
    }
}

/// Downloading sources. A single file may be renamed; anything else goes into the directory
/// `output`, which is created first.
pub open spec fn download_steps(
    sources: Seq<SourceModel>,
    output: Seq<char>,
    output_is_dir: bool,
    no_compress: bool,
    threshold: u64,
) -> Seq<StepModel> {
    if sources.len() == 1 && sources[0].kind is File {
        file_steps(
            sources[0].url.host,
            sources[0].kind->File_0,
            single_output(sources[0].url.remote_path, output, output_is_dir),
            no_compress,
            threshold,
        )
    } else {
        seq![StepModel::MakeDir(output)] + all_steps(sources, output, no_compress, threshold)
    }
}

proof fn lemma_file_steps_not_refused(
    host: Seq<char>,
    info: FileModel,
    local: Seq<char>,
    no_compress: bool,
    threshold: u64,
)
    ensures
        file_steps(host, info, local, no_compress, threshold).len() > 0,
        file_steps(host, info, local, no_compress, threshold).last() is Scp,
{
}

proof fn lemma_dir_steps_not_refused(
    url: UrlModel,
    files: Seq<FileModel>,
    output: Seq<char>,
    no_compress: bool,
    threshold: u64,
)
    ensures
        !refused(dir_steps(url, files, output, no_compress, threshold)),
{
    if files.len() > 0 {
        lemma_file_steps_not_refused(
            url.host,
            files.last(),
            path::joined(output, relative_path(url.remote_path, files.last().path)),
            no_compress,
            threshold,
        );
    }
}

proof fn lemma_refusal_stays(
    sources: Seq<SourceModel>,
    n: int,
    output: Seq<char>,
    no_compress: bool,
    threshold: u64,
)
    requires
        0 <= n <= sources.len(),
        refused(all_steps(sources.take(n), output, no_compress, threshold)),
    ensures
        all_steps(sources, output, no_compress, threshold) == all_steps(
            sources.take(n),
            output,
            no_compress,
            threshold,
        ),
    decreases sources.len() - n,
{
    if n == sources.len() {
        assert(sources.take(n) == sources);
    } else {
        assert(sources.take(n + 1).drop_last() == sources.take(n));
        lemma_refusal_stays(sources, n + 1, output, no_compress, threshold);
    }
}

fn push_dir(
    out: &mut Vec<Step>,
    url: &SshUrl,
    files: &Vec<RemoteFileInfo>,
    output: &str,
    no_compress: bool,
    threshold: u64,
)
    ensures
        steps_of(final(out)@) == steps_of(old(out)@) + dir_steps(
            url@,
            remote::files_of(files@),
            output@,
            no_compress,
            threshold,
        ),
{
    let ghost before = steps_of(out@);
    let ghost all = remote::files_of(files@);
    assert(before + Seq::<StepModel>::empty() == before);
    for i in 0..files.len()
        invariant
            all == remote::files_of(files@),
            steps_of(out@) == before + dir_steps(
                url@,
                all.take(i as int),
                output@,
                no_compress,
                threshold,
            ),
    {
        let relative = relative_text(url.remote_path.as_str(), files[i].path.as_str());
        let local = path::join_paths(output, relative.as_str());
        proof {
            assert(all.take(i + 1).drop_last() == all.take(i as int));
            assert(all.take(i + 1).last() == files@[i as int]@);
        }
        download_one_file(out, url.host.as_str(), &files[i], local, no_compress, threshold);
        assert(steps_of(out@) =~= before + dir_steps(
            url@,
            all.take(i + 1),
            output@,
            no_compress,
            threshold,
        ));
    }
    assert(all.take(all.len() as int) == all);
}

/// Works out a download: each step is to be done in order, and the first that fails ends it.
///
/// If any source is a directory or more than one source is given, `output` is a directory.
pub fn run_download(
    sources: &Vec<Source>,
    output: &str,
    output_is_dir: bool,
    no_compress: bool,
    threshold: u64,
) -> (r: Vec<Step>)
    requires
        sources@.len() > 0,
    ensures
        steps_of(r@) == download_steps(
            sources_of(sources@),
            output@,
            output_is_dir,
            no_compress,
            threshold,
        ),
{
    let mut out: Vec<Step> = Vec::new();
    let ghost all = sources_of(sources@);
    if sources.len() == 1 {
        match &sources[0].kind {
            RemoteKind::File(info) => {
                let local = resolve_single_output(
                    sources[0].url.remote_path.as_str(),
                    output,
                    output_is_dir,
                );
                download_one_file(
                    &mut out,
                    sources[0].url.host.as_str(),
                    info,
                    local,
                    no_compress,
                    threshold,
                );
                proof {
                    assert(all[0] == sources@[0]@);
                    assert(steps_of(out@) =~= download_steps(
                        all,
                        output@,
                        output_is_dir,
                        no_compress,
                        threshold,
                    ));
                }
                return out;
            },
            RemoteKind::Dir(_) => {},
        }
    }
    out.push(Step::MakeDir(text::copy_of(output)));
    let ghost first = seq![StepModel::MakeDir(output@)];
    assert(steps_of(out@) =~= first + all_steps(all.take(0), output@, no_compress, threshold));
    for i in 0..sources.len()
        invariant
            all == sources_of(sources@),
            first == seq![StepModel::MakeDir(output@)],
            steps_of(out@) == first + all_steps(all.take(i as int), output@, no_compress, threshold),
            !refused(all_steps(all.take(i as int), output@, no_compress, threshold)),
            !(sources@.len() == 1 && all[0].kind is File),
    {
        let ghost before = steps_of(out@);
        proof {
            assert(all.take(i + 1).drop_last() == all.take(i as int));
            assert(all.take(i + 1).last() == sources@[i as int]@);
        }
        let source = &sources[i];
        match &source.kind {
            RemoteKind::File(info) => match path::name_of(info.path.as_str()) {
                Some(name) => {
                    let local = path::join_paths(output, name.as_str());
                    proof {
                        lemma_file_steps_not_refused(
                            source.url.host@,
                            info@,
                            local@,
                            no_compress,
                            threshold,
                        );
                    }
                    download_one_file(
                        &mut out,
                        source.url.host.as_str(),
                        info,
                        local,
                        no_compress,
                        threshold,
                    );
                },
                None => {
                    out.push(Step::Refuse(info.path.clone()));
                    proof {
                        let refusal = StepModel::Refuse(info.path@);
                        assert(steps_of(out@) == before.push(refusal));
                        assert(source_steps(all.take(i + 1).last(), output@, no_compress, threshold)
                            == seq![refusal]);
                        assert(steps_of(out@) =~= first + all_steps(
                            all.take(i + 1),
                            output@,
                            no_compress,
                            threshold,
                        ));
                        lemma_refusal_stays(all, i + 1, output@, no_compress, threshold);
                    }
                    return out;
                },
            },
            RemoteKind::Dir(files) => {
                proof {
                    lemma_dir_steps_not_refused(
                        source.url@,
                        remote::files_of(files@),
                        output@,
                        no_compress,
                        threshold,
                    );
                }
                push_dir(&mut out, &source.url, files, output, no_compress, threshold);
            },
        }
        proof {
            let now = all_steps(all.take(i + 1), output@, no_compress, threshold);
            assert(steps_of(out@) =~= first + now);
        }
    }
    assert(all.take(all.len() as int) == all);
    out
}

/// How many files steps copy.
pub open spec fn copies(steps: Seq<StepModel>) -> nat
    decreases steps.len(),
{
    if steps.len() == 0 {
        0
    } else {
        copies(steps.drop_last()) + if steps.last() is Scp {
            1nat
        } else {
            0
        }
    }
}

/// How many files a source holds.
pub open spec fn file_count(source: SourceModel) -> nat {
    match source.kind {
        KindModel::File(_) => 1,
        KindModel::Dir(files) => files.len(),
    }
}

/// How many files sources hold together.
pub open spec fn total_files(sources: Seq<SourceModel>) -> nat
    decreases sources.len(),
{
    if sources.len() == 0 {
        0
    } else {
        total_files(sources.drop_last()) + file_count(sources.last())
    }
}

/// Whether the path of a source that is a file names that file.
pub open spec fn names_file(source: SourceModel) -> bool {
    source.kind matches KindModel::File(info) ==> path::file_name(info.path) is Some
}

proof fn lemma_copies_add(a: Seq<StepModel>, b: Seq<StepModel>)
    ensures
        copies(a + b) == copies(a) + copies(b),
    decreases b.len(),
{
    if b.len() == 0 {
        assert(a + b == a);
    } else {
        assert((a + b).drop_last() == a + b.drop_last());
        lemma_copies_add(a, b.drop_last());
    }
}

proof fn lemma_file_copies(
    host: Seq<char>,
    info: FileModel,
    local: Seq<char>,
    no_compress: bool,
    threshold: u64,
)
    ensures
        copies(file_steps(host, info, local, no_compress, threshold)) == 1,
{
    reveal_with_fuel(copies, 4);
    let steps = file_steps(host, info, local, no_compress, threshold);
    if compresses(info, no_compress, threshold) {
        let first = seq![StepModel::Ssh { host, command: "gzip -kf '"@ + info.path + "'"@ }];
        let rest = fetch_steps(host, info.path + ".gz"@, gz_path(local));
        lemma_copies_add(first, rest);
        assert(first.drop_last() == Seq::<StepModel>::empty());
        assert(rest.drop_last().drop_last() == Seq::<StepModel>::empty() || rest.drop_last()
            == Seq::<StepModel>::empty());
    } else {
        assert(steps.drop_last().drop_last() == Seq::<StepModel>::empty() || steps.drop_last()
            == Seq::<StepModel>::empty());
    }
}

proof fn lemma_dir_copies(
    url: UrlModel,
    files: Seq<FileModel>,
    output: Seq<char>,
    no_compress: bool,
    threshold: u64,
)
    ensures
        copies(dir_steps(url, files, output, no_compress, threshold)) == files.len(),
    decreases files.len(),
{
    if files.len() > 0 {
        let local = path::joined(output, relative_path(url.remote_path, files.last().path));
        lemma_dir_copies(url, files.drop_last(), output, no_compress, threshold);
        lemma_file_copies(url.host, files.last(), local, no_compress, threshold);
        lemma_copies_add(
            dir_steps(url, files.drop_last(), output, no_compress, threshold),
            file_steps(url.host, files.last(), local, no_compress, threshold),
        );
    }
}

proof fn lemma_all_copies(
    sources: Seq<SourceModel>,
    output: Seq<char>,
    no_compress: bool,
    threshold: u64,
)
    requires
        forall|i: int| 0 <= i < sources.len() ==> names_file(#[trigger] sources[i]),
    ensures
        copies(all_steps(sources, output, no_compress, threshold)) == total_files(sources),
        !refused(all_steps(sources, output, no_compress, threshold)),
    decreases sources.len(),
{
    if sources.len() > 0 {
        let head = sources.drop_last();
        let last = sources.last();
        assert forall|i: int| 0 <= i < head.len() implies names_file(#[trigger] head[i]) by {
            assert(head[i] == sources[i]);
        }
        lemma_all_copies(head, output, no_compress, threshold);
        assert(names_file(sources[sources.len() - 1]));
        match last.kind {
            KindModel::File(info) => {
                let local = path::joined(output, path::file_name(info.path)->Some_0);
                lemma_file_copies(last.url.host, info, local, no_compress, threshold);
                lemma_file_steps_not_refused(last.url.host, info, local, no_compress, threshold);
            },
            KindModel::Dir(files) => {
                lemma_dir_copies(last.url, files, output, no_compress, threshold);
                lemma_dir_steps_not_refused(last.url, files, output, no_compress, threshold);
            },
        }
        lemma_copies_add(
            all_steps(head, output, no_compress, threshold),
            source_steps(last, output, no_compress, threshold),
        );
    }
}

/// A download copies every file of every source, each once, unless a source is a file whose path
/// names none.
pub proof fn law_every_file_is_copied(
    sources: Seq<SourceModel>,
    output: Seq<char>,
    output_is_dir: bool,
    no_compress: bool,
    threshold: u64,
)
    requires
        forall|i: int| 0 <= i < sources.len() ==> names_file(#[trigger] sources[i]),
    ensures
        copies(download_steps(sources, output, output_is_dir, no_compress, threshold))
            == total_files(sources),
        !refused(download_steps(sources, output, output_is_dir, no_compress, threshold)),
{
    if sources.len() == 1 && sources[0].kind is File {
        reveal_with_fuel(total_files, 2);
        lemma_file_copies(
            sources[0].url.host,
            sources[0].kind->File_0,
            single_output(sources[0].url.remote_path, output, output_is_dir),
            no_compress,
            threshold,
        );
        assert(sources.drop_last() == Seq::<SourceModel>::empty());
    } else {
        let first = seq![StepModel::MakeDir(output)];
        lemma_all_copies(sources, output, no_compress, threshold);
        lemma_copies_add(first, all_steps(sources, output, no_compress, threshold));
        reveal_with_fuel(copies, 2);
        assert(first.drop_last() == Seq::<StepModel>::empty());
    }
}

/// A survey that is done has found out every source, in their order, by its own URL.
pub proof fn law_survey_covers_sources(survey: SurveyModel)
    requires
        survey.wf(),
        survey.done(),
    ensures
        survey.next() == Ok::<Option<QueryModel>, SshUrlError>(None),
        survey.asked is None,
        forall|i: int|
            0 <= i < survey.sources.len() ==> remote::url_parts(#[trigger] survey.sources[i]) == Ok::<
                UrlModel,
                SshUrlError,
            >(survey.found[i].url),
{
    assert forall|i: int| 0 <= i < survey.sources.len() implies remote::url_parts(
        #[trigger] survey.sources[i],
    ) == Ok::<UrlModel, SshUrlError>(survey.found[i].url) by {
        assert(survey.found[i].url == survey.found[i].url);
    }
}

// ---------------------------------------------------------------------------------------------
// Asking what the sources are

/// Finding out what the sources of a download are. Each is asked for its kind, and then for the
/// file or the files that it is.
#[derive(Debug)]
pub struct Survey {
    sources: Vec<String>,
    found: Vec<Source>,
    asked: Option<(SshUrl, PathKind)>,
}

/// How far a survey has come: the sources found out so far, and the kind of the next one if
/// that is known.
pub struct SurveyModel {
    pub sources: Seq<Seq<char>>,
    pub found: Seq<SourceModel>,
    pub asked: Option<(UrlModel, PathKind)>,
}

/// Why a source could not be found out.
#[derive(Debug)]
pub enum SurveyError {
    /// It is no SSH URL.
    Url(SshUrlError),
    /// It is neither a file nor a directory, but what the text says.
    Kind { url: SshUrl, got: String },
    /// The listing could not be read.
    Find(FindError),
    /// The listing holds no file.
    NotFound(SshUrl),
}

/// What is wrong with a source.
pub enum SurveyFault {
    Url(SshUrlError),
    Kind { url: UrlModel, got: Seq<char> },
    Find(FindFault),
    NotFound(UrlModel),
}

impl View for SurveyError {
    type V = SurveyFault;

    open spec fn view(&self) -> SurveyFault {
        match *self {
            SurveyError::Url(e) => SurveyFault::Url(e),
            SurveyError::Kind { url, got } => SurveyFault::Kind { url: url@, got: got@ },
            SurveyError::Find(e) => SurveyFault::Find(e@),
            SurveyError::NotFound(url) => SurveyFault::NotFound(url@),
        }
    }
}

impl View for Survey {
    type V = SurveyModel;

    closed spec fn view(&self) -> SurveyModel {
        SurveyModel {
            sources: text::texts(self.sources@),
            found: sources_of(self.found@),
            asked: match self.asked {
                Some((url, kind)) => Some((url@, kind)),
                None => None,
            },
        }
    }
}

impl SurveyModel {
    /// What every survey keeps: what was found out stands for the sources in their order, and
    /// what is asked next is the next source.
    pub open spec fn wf(self) -> bool {
        &&& self.found.len() <= self.sources.len()
        &&& forall|i: int|
            0 <= i < self.found.len() ==> remote::url_parts(self.sources[i]) == Ok::<
                UrlModel,
                SshUrlError,
            >((#[trigger] self.found[i]).url)
        &&& self.asked matches Some((url, _)) ==> self.found.len() < self.sources.len()
            && remote::url_parts(self.sources[self.found.len() as int]) == Ok::<UrlModel, SshUrlError>(
            url,
        )
    }

    /// Whether all sources are found out.
    pub open spec fn done(self) -> bool {
        self.found.len() == self.sources.len()
    }

    /// What to ask next.
    pub open spec fn next(self) -> Result<Option<QueryModel>, SshUrlError> {
        if self.done() {
            Ok(None)
        } else {
            match self.asked {
                Some((url, PathKind::Dir)) => Ok(
                    Some(
                        QueryModel {
                            host: url.host,
                            command: remote::list_command(url.remote_path),
                        },
                    ),
                ),
                Some((url, PathKind::File)) => Ok(
                    Some(
                        QueryModel {
                            host: url.host,
                            command: remote::stat_command(url.remote_path),
                        },
                    ),
                ),
                None => match remote::url_parts(self.sources[self.found.len() as int]) {
                    Ok(url) => Ok(
                        Some(
                            QueryModel {
                                host: url.host,
                                command: remote::kind_command(url.remote_path),
                            },
                        ),
                    ),
                    Err(e) => Err(e),
                },
            }
        }
    }

    /// The survey with one more source found out.
    pub open spec fn with_source(self, url: UrlModel, kind: KindModel) -> SurveyModel {
        SurveyModel {
            sources: self.sources,
            found: self.found.push(SourceModel { url, kind }),
            asked: None,
        }
    }

    /// The survey after the output of what it asked.
    pub open spec fn answered(self, output: Seq<char>) -> Result<SurveyModel, SurveyFault> {
        match self.asked {
            Some((url, kind)) => match remote::find_output(output) {
                Err(e) => Err(SurveyFault::Find(e)),
                Ok(files) => match kind {
                    PathKind::Dir => Ok(
                        self.with_source(url, KindModel::Dir(remote::newest_first(files))),
                    ),
                    PathKind::File => if files.len() == 0 {
                        Err(SurveyFault::NotFound(url))
                    } else {
                        Ok(self.with_source(url, KindModel::File(files.last())))
                    },
                },
            },
            None => match remote::url_parts(self.sources[self.found.len() as int]) {
                Err(e) => Err(SurveyFault::Url(e)),
                Ok(url) => match remote::path_kind(output) {
                    None => Err(SurveyFault::Kind { url, got: text::trim(output) }),
                    Some(kind) => Ok(SurveyModel { asked: Some((url, kind)), ..self }),
                },
            },
        }
    }
}

impl Survey {
    /// Starts a survey: none if there is no source.
    pub fn new(sources: Vec<String>) -> (r: Option<Survey>)
        ensures
            match r {
                Some(survey) => sources@.len() > 0 && survey@ == (SurveyModel {
                    sources: text::texts(sources@),
                    found: seq![],
                    asked: None,
                }) && survey@.wf(),
                None => sources@.len() == 0,
            },
    {
        if sources.len() == 0 {
            return None;
        }
        let survey = Survey { sources, found: Vec::new(), asked: None };
        assert(survey@.found =~= Seq::<SourceModel>::empty());
        Some(survey)
    }

    /// What to ask next: nothing if all sources are found out.
    pub fn next(&self) -> (r: Result<Option<Query>, SshUrlError>)
        requires
            self@.wf(),
        ensures
            match r {
                Ok(Some(q)) => self@.next() == Ok::<Option<QueryModel>, SshUrlError>(Some(q@)),
                Ok(None) => self@.next() == Ok::<Option<QueryModel>, SshUrlError>(None),
                Err(e) => self@.next() == Err::<Option<QueryModel>, SshUrlError>(e),
            },
            r matches Ok(None) <==> self@.done(),
    {
        if self.found.len() == self.sources.len() {
            return Ok(None);
        }
        match &self.asked {
            Some((url, PathKind::Dir)) => Ok(
                Some(
                    Query {
                        host: url.host.clone(),
                        command: remote::list_command_text(url.remote_path.as_str()),
                    },
                ),
            ),
            Some((url, PathKind::File)) => Ok(
                Some(
                    Query {
                        host: url.host.clone(),
                        command: remote::stat_command_text(url.remote_path.as_str()),
                    },
                ),
            ),
            None => {
                assert(self@.sources[self@.found.len() as int] == self.sources@[self.found@.len() as int]@);
                match SshUrl::parse(self.sources[self.found.len()].as_str()) {
                    Ok(url) => {
                        let command = remote::kind_command_text(url.remote_path.as_str());
                        Ok(Some(Query { host: url.host, command }))
                    },
                    Err(e) => Err(e),
                }
            },
        }
    }

    /// Takes the output of what was asked.
    pub fn answer(&mut self, output: &str) -> (r: Result<(), SurveyError>)
        requires
            old(self)@.wf(),
            !old(self)@.done(),
        ensures
            match r {
                Ok(()) => old(self)@.answered(output@) == Ok::<SurveyModel, SurveyFault>(final(self)@)
                    && final(self)@.wf(),
                Err(e) => old(self)@.answered(output@) == Err::<SurveyModel, SurveyFault>(e@)
                    && final(self)@ == (SurveyModel { asked: None, ..old(self)@ }),
            },
    {
        match self.asked.take() {
            Some((url, PathKind::Dir)) => match remote::list_remote_dir(output) {
                Ok(files) => {
                    self.found.push(Source { url, kind: RemoteKind::Dir(files) });
                    proof {
                        assert(self@.found =~= old(self)@.with_source(
                            url@,
                            KindModel::Dir(remote::files_of(files@)),
                        ).found);
                    }
                    Ok(())
                },
                Err(e) => Err(SurveyError::Find(e)),
            },
            Some((url, PathKind::File)) => match remote::stat_remote_file(output) {
                Ok(info) => {
                    self.found.push(Source { url, kind: RemoteKind::File(info) });
                    proof {
                        assert(self@.found =~= old(self)@.with_source(url@, KindModel::File(info@)).found);
                    }
                    Ok(())
                },
                Err(StatError::Find(e)) => Err(SurveyError::Find(e)),
                Err(StatError::NotFound) => Err(SurveyError::NotFound(url)),
            },
            None => {
                assert(self@.sources[self@.found.len() as int] == self.sources@[self.found@.len() as int]@);
                match SshUrl::parse(self.sources[self.found.len()].as_str()) {
                    Ok(url) => match remote::classify_remote(output) {
                        Ok(kind) => {
                            self.asked = Some((url, kind));
                            Ok(())
                        },
                        Err(got) => Err(SurveyError::Kind { url, got }),
                    },
                    Err(e) => Err(SurveyError::Url(e)),
                }
            },
        }
    }

    /// The sources of a survey that is done.
    pub fn finish(self) -> (r: Vec<Source>)
        requires
            self@.done(),
        ensures
            sources_of(r@) == self@.found,
    {
        self.found
    }
}

// ---------------------------------------------------------------------------------------------
// What a download does

/// How one file is fetched. A file that is larger than the threshold and does not end with `.gz` is
/// first compressed on its host, unless that is switched off, and what is copied is then the compressed
/// file, to a local path with `.gz`. Any other file is copied as it is. The directory of the local path
/// is created right before.
pub proof fn law_file_is_fetched(
    host: Seq<char>,
    info: FileModel,
    local: Seq<char>,
    no_compress: bool,
    threshold: u64,
)
    ensures
        !no_compress && !text::has_suffix(info.path, ".gz"@) && info.size_bytes > threshold ==> {
            let steps = file_steps(host, info, local, no_compress, threshold);
            let n = steps.len() as int;
            &&& steps[0] == (StepModel::Ssh { host, command: "gzip -kf '"@ + info.path + "'"@ })
            &&& steps[n - 1] == (StepModel::Scp {
                source: host + seq![':'] + (info.path + ".gz"@),
                dest: gz_path(local),
            })
            &&& path::parent(gz_path(local)) is Some ==> n == 3 && steps[1] == StepModel::MakeDir(
                path::parent(gz_path(local))->0,
            )
            &&& path::parent(gz_path(local)) is None ==> n == 2
        },
        no_compress || text::has_suffix(info.path, ".gz"@) || info.size_bytes <= threshold ==> {
            let steps = file_steps(host, info, local, no_compress, threshold);
            let n = steps.len() as int;
            &&& steps[n - 1] == (StepModel::Scp {
                source: host + seq![':'] + info.path,
                dest: local,
            })
            &&& path::parent(local) is Some ==> n == 2 && steps[0] == StepModel::MakeDir(
                path::parent(local)->0,
            )
            &&& path::parent(local) is None ==> n == 1
        },
{
}

/// Whether steps are done one right after the other somewhere among others.
pub open spec fn are_among(part: Seq<StepModel>, steps: Seq<StepModel>) -> bool {
    exists|p: int|
        0 <= p <= steps.len() - part.len() && #[trigger] steps.subrange(p, p + part.len()) == part
}

proof fn lemma_among_append(
    part: Seq<StepModel>,
    before: Seq<StepModel>,
    steps: Seq<StepModel>,
    after: Seq<StepModel>,
)
    requires
        are_among(part, steps),
    ensures
        are_among(part, before + steps + after),
{
    let p = choose|p: int|
        0 <= p <= steps.len() - part.len() && #[trigger] steps.subrange(p, p + part.len()) == part;
    let all = before + steps + after;
    let q = before.len() + p;
    assert(all.subrange(q, q + part.len()) =~= part) by {
        assert forall|i: int| 0 <= i < part.len() implies all[q + i] == part[i] by {
            assert(steps.subrange(p, p + part.len())[i] == steps[p + i]);
        }
    }
}

proof fn lemma_among_itself(part: Seq<StepModel>)
    ensures
        are_among(part, part),
{
    let start: int = 0;
    assert(part.subrange(start, start + part.len()) =~= part);
}

/// The file at `k` of a directory is fetched from where it is to the same place below the output.
proof fn lemma_directory_file_is_fetched(
    url: UrlModel,
    files: Seq<FileModel>,
    k: int,
    output: Seq<char>,
    no_compress: bool,
    threshold: u64,
)
    requires
        0 <= k < files.len(),
    ensures
        are_among(
            file_steps(
                url.host,
                files[k],
                path::joined(output, relative_path(url.remote_path, files[k].path)),
                no_compress,
                threshold,
            ),
            dir_steps(url, files, output, no_compress, threshold),
        ),
    decreases files.len(),
{
    let head = files.drop_last();
    let before = dir_steps(url, head, output, no_compress, threshold);
    let none = Seq::<StepModel>::empty();
    let last = file_steps(
        url.host,
        files.last(),
        path::joined(output, relative_path(url.remote_path, files.last().path)),
        no_compress,
        threshold,
    );
    if k < head.len() {
        lemma_directory_file_is_fetched(url, head, k, output, no_compress, threshold);
        lemma_among_append(
            file_steps(
                url.host,
                files[k],
                path::joined(output, relative_path(url.remote_path, files[k].path)),
                no_compress,
                threshold,
            ),
            none,
            before,
            last,
        );
        assert(none + before + last =~= before + last);
    } else {
        lemma_among_itself(last);
        lemma_among_append(last, before, last, none);
        assert(before + last + none =~= before + last);
    }
}

/// The steps of a source are done where the sources before it name their files.
proof fn lemma_source_is_downloaded(
    sources: Seq<SourceModel>,
    j: int,
    output: Seq<char>,
    no_compress: bool,
    threshold: u64,
)
    requires
        0 <= j < sources.len(),
        forall|i: int| 0 <= i < j ==> names_file(#[trigger] sources[i]),
    ensures
        are_among(
            source_steps(sources[j], output, no_compress, threshold),
            all_steps(sources, output, no_compress, threshold),
        ),
    decreases sources.len(),
{
    let head = sources.drop_last();
    let none = Seq::<StepModel>::empty();
    let before = all_steps(head, output, no_compress, threshold);
    let last = source_steps(sources.last(), output, no_compress, threshold);
    if j < head.len() {
        assert forall|i: int| 0 <= i < j implies names_file(#[trigger] head[i]) by {
            assert(head[i] == sources[i]);
        }
        lemma_source_is_downloaded(head, j, output, no_compress, threshold);
        lemma_among_append(
            source_steps(sources[j], output, no_compress, threshold),
            none,
            before,
            last,
        );
        assert(none + before + last =~= before + last);
    } else {
        assert forall|i: int| 0 <= i < head.len() implies names_file(#[trigger] head[i]) by {
            assert(head[i] == sources[i]);
        }
        lemma_all_copies(head, output, no_compress, threshold);
        lemma_among_itself(last);
        lemma_among_append(last, before, last, none);
        assert(before + last + none =~= before + last);
    }
}

/// A part of steps that are among others is among them too.
proof fn lemma_among_transitive(a: Seq<StepModel>, b: Seq<StepModel>, c: Seq<StepModel>)
    requires
        are_among(a, b),
        are_among(b, c),
    ensures
        are_among(a, c),
{
    let p = choose|p: int| 0 <= p <= b.len() - a.len() && #[trigger] b.subrange(p, p + a.len()) == a;
    let q = choose|q: int| 0 <= q <= c.len() - b.len() && #[trigger] c.subrange(q, q + b.len()) == b;
    assert(c.subrange(q + p, q + p + a.len()) =~= a) by {
        assert forall|i: int| 0 <= i < a.len() implies c[q + p + i] == a[i] by {
            assert(b.subrange(p, p + a.len())[i] == b[p + i]);
            assert(c.subrange(q, q + b.len())[p + i] == c[q + p + i]);
        }
    }
}

/// Every file of every directory is fetched as files are, with the same wish for compression and the
/// same threshold as was asked for: a large one is compressed on its host before the compressed file
/// is copied, and any other is copied as it is, to its place below the output.
pub proof fn law_files_of_directories_are_fetched(
    sources: Seq<SourceModel>,
    j: int,
    k: int,
    output: Seq<char>,
    output_is_dir: bool,
    no_compress: bool,
    threshold: u64,
)
    requires
        forall|i: int|
            0 <= i < j && (#[trigger] sources[i]).kind is File ==> path::file_name(
                sources[i].kind->File_0.path,
            ) is Some,
        0 <= j < sources.len(),
        sources[j].kind is Dir,
        0 <= k < sources[j].kind->Dir_0.len(),
    ensures
        are_among(
            file_steps(
                sources[j].url.host,
                sources[j].kind->Dir_0[k],
                path::joined(
                    output,
                    relative_path(sources[j].url.remote_path, sources[j].kind->Dir_0[k].path),
                ),
                no_compress,
                threshold,
            ),
            download_steps(sources, output, output_is_dir, no_compress, threshold),
        ),
        download_steps(sources, output, output_is_dir, no_compress, threshold)[0] == StepModel::MakeDir(
            output,
        ),
        !no_compress && !text::has_suffix(sources[j].kind->Dir_0[k].path, ".gz"@)
            && sources[j].kind->Dir_0[k].size_bytes > threshold ==> exists|p: int, q: int|
            0 <= p < q < download_steps(sources, output, output_is_dir, no_compress, threshold).len()
                && #[trigger] download_steps(sources, output, output_is_dir, no_compress, threshold)[p] == (
            StepModel::Ssh {
                host: sources[j].url.host,
                command: "gzip -kf '"@ + sources[j].kind->Dir_0[k].path + "'"@,
            }) && #[trigger] download_steps(sources, output, output_is_dir, no_compress, threshold)[q] == (
            StepModel::Scp {
                source: sources[j].url.host + seq![':'] + (sources[j].kind->Dir_0[k].path + ".gz"@),
                dest: gz_path(
                    path::joined(
                        output,
                        relative_path(sources[j].url.remote_path, sources[j].kind->Dir_0[k].path),
                    ),
                ),
            }),
        no_compress || text::has_suffix(sources[j].kind->Dir_0[k].path, ".gz"@)
            || sources[j].kind->Dir_0[k].size_bytes <= threshold ==> exists|q: int|
            0 <= q < download_steps(sources, output, output_is_dir, no_compress, threshold).len()
                && #[trigger] download_steps(sources, output, output_is_dir, no_compress, threshold)[q] == (
            StepModel::Scp {
                source: sources[j].url.host + seq![':'] + sources[j].kind->Dir_0[k].path,
                dest: path::joined(
                    output,
                    relative_path(sources[j].url.remote_path, sources[j].kind->Dir_0[k].path),
                ),
            }),
{
    let url = sources[j].url;
    let files = sources[j].kind->Dir_0;
    let local = path::joined(output, relative_path(url.remote_path, files[k].path));
    let part = file_steps(url.host, files[k], local, no_compress, threshold);
    let dir = dir_steps(url, files, output, no_compress, threshold);
    let all = all_steps(sources, output, no_compress, threshold);
    let steps = download_steps(sources, output, output_is_dir, no_compress, threshold);
    let first = seq![StepModel::MakeDir(output)];
    let none = Seq::<StepModel>::empty();
    lemma_directory_file_is_fetched(url, files, k, output, no_compress, threshold);
    lemma_source_is_downloaded(sources, j, output, no_compress, threshold);
    lemma_among_transitive(part, dir, all);
    lemma_among_append(part, first, all, none);
    assert(first + all + none =~= first + all);
    assert(steps == first + all);
    let p = choose|p: int|
        0 <= p <= steps.len() - part.len() && #[trigger] steps.subrange(p, p + part.len()) == part;
    let n = part.len() as int;
    law_file_is_fetched(url.host, files[k], local, no_compress, threshold);
    assert(steps.subrange(p, p + n)[n - 1] == steps[p + n - 1]);
    assert(steps.subrange(p, p + n)[0] == steps[p]);
}

/// Every file among several sources is fetched as files are, with the same wish for compression and the
/// same threshold as was asked for, to its own name in the output.
pub proof fn law_files_among_sources_are_fetched(
    sources: Seq<SourceModel>,
    j: int,
    output: Seq<char>,
    output_is_dir: bool,
    no_compress: bool,
    threshold: u64,
)
    requires
        forall|i: int|
            0 <= i < j && (#[trigger] sources[i]).kind is File ==> path::file_name(
                sources[i].kind->File_0.path,
            ) is Some,
        sources.len() > 1,
        0 <= j < sources.len(),
        sources[j].kind is File,
        path::file_name(sources[j].kind->File_0.path) is Some,
    ensures
        are_among(
            file_steps(
                sources[j].url.host,
                sources[j].kind->File_0,
                path::joined(output, path::file_name(sources[j].kind->File_0.path)->0),
                no_compress,
                threshold,
            ),
            download_steps(sources, output, output_is_dir, no_compress, threshold),
        ),
        download_steps(sources, output, output_is_dir, no_compress, threshold)[0] == StepModel::MakeDir(
            output,
        ),
{
    assert forall|i: int| 0 <= i < j implies names_file(#[trigger] sources[i]) by {}
    let all = all_steps(sources, output, no_compress, threshold);
    let first = seq![StepModel::MakeDir(output)];
    let none = Seq::<StepModel>::empty();
    let part = source_steps(sources[j], output, no_compress, threshold);
    lemma_source_is_downloaded(sources, j, output, no_compress, threshold);
    lemma_among_append(part, first, all, none);
    assert(first + all + none =~= first + all);
}

/// A single file is fetched as files are, and nothing else is done: into the output, under its own name
/// or `trace.json`, if that is a directory or ends with `/`, and to the output itself otherwise.
pub proof fn law_single_file_is_fetched(
    source: SourceModel,
    info: FileModel,
    output: Seq<char>,
    output_is_dir: bool,
    no_compress: bool,
    threshold: u64,
)
    requires
        source.kind == KindModel::File(info),
    ensures
        output_is_dir || (output.len() > 0 && output.last() == '/') ==> download_steps(
            seq![source],
            output,
            output_is_dir,
            no_compress,
            threshold,
        ) == file_steps(
            source.url.host,
            info,
            path::joined(
                output,
                if path::file_name(source.url.remote_path) is Some {
                    path::file_name(source.url.remote_path)->0
                } else {
                    "trace.json"@
                },
            ),
            no_compress,
            threshold,
        ),
        !output_is_dir && (output.len() == 0 || output.last() != '/') ==> download_steps(
            seq![source],
            output,
            output_is_dir,
            no_compress,
            threshold,
        ) == file_steps(source.url.host, info, output, no_compress, threshold),
{
    reveal_strlit("/");
    if output.len() > 0 {
        assert(output.skip(output.len() - 1) =~= seq![output.last()]);
        assert("/"@ =~= seq!['/']);
        if output.last() != '/' {
            assert(seq![output.last()][0] != "/"@[0]);
        }
    }
}

/// A source among several that is a file without a name ends the download: what comes before it is
/// done, and nothing after it.
pub proof fn law_nameless_file_ends_the_download(
    sources: Seq<SourceModel>,
    j: int,
    info: FileModel,
    output: Seq<char>,
    output_is_dir: bool,
    no_compress: bool,
    threshold: u64,
)
    requires
        sources.len() > 1,
        0 <= j < sources.len(),
        forall|i: int|
            0 <= i < j && (#[trigger] sources[i]).kind is File ==> path::file_name(
                sources[i].kind->File_0.path,
            ) is Some,
        sources[j].kind == KindModel::File(info),
        path::file_name(info.path) is None,
    ensures
        download_steps(sources, output, output_is_dir, no_compress, threshold) == seq![
            StepModel::MakeDir(output),
        ] + all_steps(sources.take(j), output, no_compress, threshold) + seq![
            StepModel::Refuse(info.path),
        ],
{
    let head = sources.take(j);
    let upto = sources.take(j + 1);
    assert forall|i: int| 0 <= i < head.len() implies names_file(#[trigger] head[i]) by {
        assert(head[i] == sources[i]);
    }
    lemma_all_copies(head, output, no_compress, threshold);
    assert(upto.drop_last() =~= head);
    assert(upto.last() == sources[j]);
    assert(all_steps(upto, output, no_compress, threshold) == all_steps(
        head,
        output,
        no_compress,
        threshold,
    ) + seq![StepModel::Refuse(info.path)]);
    lemma_refusal_stays(sources, j + 1, output, no_compress, threshold);
    assert(download_steps(sources, output, output_is_dir, no_compress, threshold) =~= seq![
        StepModel::MakeDir(output),
    ] + all_steps(sources.take(j), output, no_compress, threshold) + seq![StepModel::Refuse(info.path)]);
}

/// Whether a source leads to a file.
pub open spec fn leads_to(source: SourceModel, f: FileModel) -> bool {
    match source.kind {
        KindModel::File(info) => info == f,
        KindModel::Dir(files) => files.contains(f),
    }
}

/// Whether a step is a compression of a large file of some source.
spec fn compresses_some(sources: Seq<SourceModel>, step: StepModel, threshold: u64) -> bool {
    exists|j: int, f: FileModel|
        0 <= j < sources.len() && #[trigger] leads_to(sources[j], f) && f.size_bytes > threshold
            && !text::has_suffix(f.path, ".gz"@) && step == (StepModel::Ssh {
            host: sources[j].url.host,
            command: "gzip -kf '"@ + f.path + "'"@,
        })
}

/// Only large files that are not compressed yet are compressed, and none where that is switched off:
/// every command that a download runs on a host compresses such a file of a source on that host.
pub proof fn law_only_large_files_are_compressed(
    sources: Seq<SourceModel>,
    output: Seq<char>,
    output_is_dir: bool,
    no_compress: bool,
    threshold: u64,
    i: int,
)
    requires
        0 <= i < download_steps(sources, output, output_is_dir, no_compress, threshold).len(),
        download_steps(sources, output, output_is_dir, no_compress, threshold)[i] is Ssh,
    ensures
        !no_compress,
        exists|j: int, f: FileModel|
            0 <= j < sources.len() && #[trigger] leads_to(sources[j], f) && f.size_bytes > threshold
                && !text::has_suffix(f.path, ".gz"@) && download_steps(
                sources,
                output,
                output_is_dir,
                no_compress,
                threshold,
            )[i] == (StepModel::Ssh {
                host: sources[j].url.host,
                command: "gzip -kf '"@ + f.path + "'"@,
            }),
{
    let steps = download_steps(sources, output, output_is_dir, no_compress, threshold);
    if sources.len() == 1 && sources[0].kind is File {
        let f = sources[0].kind->File_0;
        assert(leads_to(sources[0], f));
    } else {
        let all = all_steps(sources, output, no_compress, threshold);
        assert(steps[i] == all[i - 1]);
        lemma_only_large_files(sources, output, no_compress, threshold, i - 1);
        assert(compresses_some(sources, all[i - 1], threshold));
    }
}

proof fn lemma_only_large_files(
    sources: Seq<SourceModel>,
    output: Seq<char>,
    no_compress: bool,
    threshold: u64,
    i: int,
)
    requires
        0 <= i < all_steps(sources, output, no_compress, threshold).len(),
        all_steps(sources, output, no_compress, threshold)[i] is Ssh,
    ensures
        !no_compress,
        compresses_some(sources, all_steps(sources, output, no_compress, threshold)[i], threshold),
    decreases sources.len(),
{
    let head = sources.drop_last();
    let last = sources.last();
    let n = sources.len() - 1;
    let before = all_steps(head, output, no_compress, threshold);
    let step = all_steps(sources, output, no_compress, threshold)[i];
    if i < before.len() {
        assert(step == before[i]);
        lemma_only_large_files(head, output, no_compress, threshold, i);
        let (j, f) = choose|j: int, f: FileModel|
            0 <= j < head.len() && #[trigger] leads_to(head[j], f) && f.size_bytes > threshold
                && !text::has_suffix(f.path, ".gz"@) && step == (StepModel::Ssh {
                host: head[j].url.host,
                command: "gzip -kf '"@ + f.path + "'"@,
            });
        assert(leads_to(sources[j], f));
    } else {
        let own = source_steps(last, output, no_compress, threshold);
        let k = i - before.len();
        assert(step == own[k]);
        match last.kind {
            KindModel::File(info) => {
                assert(leads_to(sources[n], info));
            },
            KindModel::Dir(files) => {
                lemma_only_large_files_of(last.url, files, output, no_compress, threshold, k);
                let f = choose|f: FileModel|
                    files.contains(f) && f.size_bytes > threshold && !text::has_suffix(f.path, ".gz"@)
                        && step == (StepModel::Ssh {
                        host: last.url.host,
                        command: "gzip -kf '"@ + #[trigger] f.path + "'"@,
                    });
                assert(leads_to(sources[n], f));
            },
        }
    }
}

proof fn lemma_only_large_files_of(
    url: UrlModel,
    files: Seq<FileModel>,
    output: Seq<char>,
    no_compress: bool,
    threshold: u64,
    i: int,
)
    requires
        0 <= i < dir_steps(url, files, output, no_compress, threshold).len(),
        dir_steps(url, files, output, no_compress, threshold)[i] is Ssh,
    ensures
        !no_compress,
        exists|f: FileModel|
            files.contains(f) && f.size_bytes > threshold && !text::has_suffix(f.path, ".gz"@)
                && dir_steps(url, files, output, no_compress, threshold)[i] == (StepModel::Ssh {
                host: url.host,
                command: "gzip -kf '"@ + #[trigger] f.path + "'"@,
            }),
    decreases files.len(),
{
    let head = files.drop_last();
    let before = dir_steps(url, head, output, no_compress, threshold);
    let step = dir_steps(url, files, output, no_compress, threshold)[i];
    if i < before.len() {
        assert(step == before[i]);
        lemma_only_large_files_of(url, head, output, no_compress, threshold, i);
        let f = choose|f: FileModel|
            head.contains(f) && f.size_bytes > threshold && !text::has_suffix(f.path, ".gz"@) && step == (
            StepModel::Ssh { host: url.host, command: "gzip -kf '"@ + #[trigger] f.path + "'"@ });
        assert(files[head.index_of(f)] == f);
        assert(f.path == f.path);
    } else {
        let f = files.last();
        assert(files[files.len() - 1] == f);
        assert(step == file_steps(
            url.host,
            f,
            path::joined(output, relative_path(url.remote_path, f.path)),
            no_compress,
            threshold,
        )[i - before.len()]);
        assert(f.path == f.path);
    }
}

/// A file in the directory that was listed goes to the same place below the output: its path without
/// that of the directory and the slashes behind it. A file elsewhere keeps its path, without slashes
/// at its start.
pub proof fn law_relative_path_is_what_follows_the_directory(
    dir: Seq<char>,
    rest: Seq<char>,
    file: Seq<char>,
)
    ensures
        relative_path(dir, dir + rest) == text::drop_leading(rest, '/'),
        rest.len() == 0 || rest[0] != '/' ==> relative_path(dir, dir + seq!['/'] + rest) == rest,
        (forall|r: Seq<char>| file != dir + r) ==> relative_path(dir, file) == text::drop_leading(
            file,
            '/',
        ),
{
    text::law_prefix_and_suffix(file, dir, rest);
    assert((dir + rest).skip(dir.len() as int) =~= rest);
    let inner = seq!['/'] + rest;
    assert(dir + seq!['/'] + rest =~= dir + inner);
    text::law_prefix_and_suffix(file, dir, inner);
    assert((dir + inner).skip(dir.len() as int) =~= inner);
    assert(inner.skip(1) =~= rest);
    reveal_with_fuel(text::drop_leading, 2);
    if text::has_prefix(file, dir) {
        assert(file == dir + file.skip(dir.len() as int));
    }
}

/// A path that neither ends with `.gz` nor has that extension gets it appended, and any other stays.
pub proof fn law_gz_is_appended_once(p: Seq<char>)
    ensures
        text::has_suffix(p, ".gz"@) || path::extension(p) == Some("gz"@) ==> gz_path(p) == p,
        !text::has_suffix(p, ".gz"@) && path::extension(p) != Some("gz"@) ==> gz_path(p) == p + ".gz"@,
{
}

/// What a survey asks: of the next source first for its kind, and once that is known for its files. The
/// question goes to the host of the source. Nothing is asked once all sources are found out.
pub proof fn law_survey_asks_for_kind_and_files(survey: SurveyModel, url: UrlModel)
    requires
        survey.found.len() <= survey.sources.len(),
    ensures
        survey.next() == Ok::<Option<QueryModel>, SshUrlError>(None) <==> survey.found.len()
            == survey.sources.len(),
        survey.found.len() < survey.sources.len() && survey.asked is None && remote::url_parts(survey.sources[survey.found.len() as int]) == Ok::<
            UrlModel,
            SshUrlError,
        >(url) ==> survey.next() == Ok::<Option<QueryModel>, SshUrlError>(
            Some(QueryModel { host: url.host, command: remote::kind_command(url.remote_path) }),
        ),
        survey.found.len() < survey.sources.len() && survey.asked == Some((url, PathKind::Dir)) ==> survey.next() == Ok::<
            Option<QueryModel>,
            SshUrlError,
        >(Some(QueryModel { host: url.host, command: remote::list_command(url.remote_path) })),
        survey.found.len() < survey.sources.len() && survey.asked == Some((url, PathKind::File)) ==> survey.next() == Ok::<
            Option<QueryModel>,
            SshUrlError,
        >(Some(QueryModel { host: url.host, command: remote::stat_command(url.remote_path) })),
{
}

/// What a survey learns: the kind of the next source, and then that the source is the last file that
/// was listed, or the directory of all of them, the newest first. What was found before stays.
pub proof fn law_survey_learns_from_answers(survey: SurveyModel, output: Seq<char>, url: UrlModel)
    requires
        survey.found.len() < survey.sources.len(),
    ensures
        survey.asked is None && remote::url_parts(survey.sources[survey.found.len() as int]) == Ok::<
            UrlModel,
            SshUrlError,
        >(url) && remote::path_kind(output) is Some ==> survey.answered(output) is Ok && survey.answered(
            output,
        )->Ok_0.asked == Some((url, remote::path_kind(output)->0)) && survey.answered(output)->Ok_0.found
            == survey.found && survey.answered(output)->Ok_0.sources == survey.sources,
        survey.asked == Some((url, PathKind::File)) && remote::find_output(output) is Ok && (
        remote::find_output(output)->Ok_0.len() != 0) ==> survey.answered(output) is Ok && survey.answered(
            output,
        )->Ok_0.found == survey.found.push(
            (SourceModel { url, kind: KindModel::File(remote::find_output(output)->Ok_0.last()) }),
        ) && survey.answered(output)->Ok_0.asked is None && survey.answered(output)->Ok_0.sources
            == survey.sources,
        survey.asked == Some((url, PathKind::Dir)) && remote::find_output(output) is Ok
            ==> survey.answered(output) is Ok && survey.answered(output)->Ok_0.found == survey.found.push(
            (SourceModel {
                url,
                kind: KindModel::Dir(remote::newest_first(remote::find_output(output)->Ok_0)),
            }),
        ) && survey.answered(output)->Ok_0.asked is None && survey.answered(output)->Ok_0.sources
            == survey.sources,
{
}

/// When a survey fails: at a source that is no URL, at one that is neither a file nor a directory, at a
/// listing that cannot be read, and at a file that is not listed.
pub proof fn law_survey_faults(survey: SurveyModel, output: Seq<char>, url: UrlModel)
    requires
        survey.found.len() < survey.sources.len(),
    ensures
        survey.asked is None && remote::url_parts(survey.sources[survey.found.len() as int]) is Err
            ==> survey.answered(output) == Err::<SurveyModel, SurveyFault>(
            SurveyFault::Url(remote::url_parts(survey.sources[survey.found.len() as int])->Err_0),
        ) && survey.next() == Err::<Option<QueryModel>, SshUrlError>(
            remote::url_parts(survey.sources[survey.found.len() as int])->Err_0,
        ),
        survey.asked is None && remote::url_parts(survey.sources[survey.found.len() as int]) == Ok::<
            UrlModel,
            SshUrlError,
        >(url) && remote::path_kind(output) is None ==> survey.answered(output) == Err::<
            SurveyModel,
            SurveyFault,
        >((SurveyFault::Kind { url, got: text::trim(output) })),
        survey.asked is Some && remote::find_output(output) is Err ==> survey.answered(output) == Err::<
            SurveyModel,
            SurveyFault,
        >(SurveyFault::Find(remote::find_output(output)->Err_0)),
        survey.asked == Some((url, PathKind::File)) && remote::find_output(output) is Ok
            && remote::find_output(output)->Ok_0.len() == 0 ==> survey.answered(output) == Err::<
            SurveyModel,
            SurveyFault,
        >(SurveyFault::NotFound(url)),
{
}

/// A download goes through its sources in order, and through the files of a directory in order: one
/// more source, or one more file at the end of the directory that comes last, adds its own steps after
/// all the others. A download without files only creates the output.
pub proof fn law_downloads_go_in_order(
    sources: Seq<SourceModel>,
    url: UrlModel,
    files: Seq<FileModel>,
    info: FileModel,
    output: Seq<char>,
    output_is_dir: bool,
    no_compress: bool,
    threshold: u64,
)
    requires
        forall|i: int|
            0 <= i < sources.len() && (#[trigger] sources[i]).kind is File ==> path::file_name(
                sources[i].kind->File_0.path,
            ) is Some,
    ensures
        download_steps(seq![], output, output_is_dir, no_compress, threshold) == seq![
            StepModel::MakeDir(output),
        ],
        sources.len() > 1 ==> download_steps(
            sources.push((SourceModel { url, kind: KindModel::Dir(seq![]) })),
            output,
            output_is_dir,
            no_compress,
            threshold,
        ) == download_steps(sources, output, output_is_dir, no_compress, threshold),
        download_steps(
            sources.push((SourceModel { url, kind: KindModel::Dir(files.push(info)) })),
            output,
            output_is_dir,
            no_compress,
            threshold,
        ) == download_steps(
            sources.push((SourceModel { url, kind: KindModel::Dir(files) })),
            output,
            output_is_dir,
            no_compress,
            threshold,
        ) + file_steps(
            url.host,
            info,
            path::joined(output, relative_path(url.remote_path, info.path)),
            no_compress,
            threshold,
        ),
        sources.len() > 1 && path::file_name(info.path) is Some ==> download_steps(
            sources.push((SourceModel { url, kind: KindModel::File(info) })),
            output,
            output_is_dir,
            no_compress,
            threshold,
        ) == download_steps(sources, output, output_is_dir, no_compress, threshold) + file_steps(
            url.host,
            info,
            path::joined(output, path::file_name(info.path)->0),
            no_compress,
            threshold,
        ),
{
    assert forall|i: int| 0 <= i < sources.len() implies names_file(#[trigger] sources[i]) by {}
    lemma_all_copies(sources, output, no_compress, threshold);
    let before = all_steps(sources, output, no_compress, threshold);
    let none = SourceModel { url, kind: KindModel::Dir(seq![]) };
    let dir = SourceModel { url, kind: KindModel::Dir(files) };
    let more = SourceModel { url, kind: KindModel::Dir(files.push(info)) };
    let file = SourceModel { url, kind: KindModel::File(info) };
    assert(sources.push(none).drop_last() =~= sources);
    assert(sources.push(dir).drop_last() =~= sources);
    assert(sources.push(more).drop_last() =~= sources);
    assert(sources.push(file).drop_last() =~= sources);
    assert(files.push(info).drop_last() =~= files);
    assert(before + Seq::<StepModel>::empty() =~= before);
}

/// By default a file is compressed on its host exactly if it holds more than 500 MB and is not
/// compressed yet.
pub proof fn law_default_threshold_is_500_megabytes(host: Seq<char>, info: FileModel, local: Seq<char>)
    ensures
        file_steps(host, info, local, false, DEFAULT_COMPRESS_THRESHOLD)[0] is Ssh <==> info.size_bytes > 500
            * 1024 * 1024 && !text::has_suffix(info.path, ".gz"@),
{
}

} // verus!
