//! Trace files on remote hosts: `ssh` URLs, the commands that look at a remote path, and what
//! their output says.

use vstd::prelude::*;
use crate::order;
use crate::size;
use crate::text;

verus! {

// ---------------------------------------------------------------------------------------------
// URLs

/// Parsed SSH URL of the form `ssh://host:/path/to/file`.
#[derive(Debug, Clone, PartialEq, Eq)]
pub struct SshUrl {
    pub host: String,
    pub remote_path: String,
}

/// A host and a path on it.
pub struct UrlModel {
    pub host: Seq<char>,
    pub remote_path: Seq<char>,
}

impl View for SshUrl {
    type V = UrlModel;

    open spec fn view(&self) -> UrlModel {
        UrlModel { host: self.host@, remote_path: self.remote_path@ }
    }
}

/// Why a text is no SSH URL.
#[derive(Debug, Clone, Copy, PartialEq, Eq)]
pub enum SshUrlError {
    /// It does not start with `ssh://`.
    MissingPrefix,
    /// No `:` ends the host.
    MissingColon,
    /// Nothing stands before the `:`.
    EmptyHost,
    /// Nothing stands after the `:`.
    EmptyPath,
}

/// The host and the path of an SSH URL. The first `:` after `ssh://` ends the host.
pub open spec fn url_parts(url: Seq<char>) -> Result<UrlModel, SshUrlError> {
    if !text::has_prefix(url, "ssh://"@) {
        Err(SshUrlError::MissingPrefix)
    } else {
        match text::split_once(url.skip("ssh://"@.len() as int), ':') {
            None => Err(SshUrlError::MissingColon),
            Some((host, path)) => if host.len() == 0 {
                Err(SshUrlError::EmptyHost)
            } else if path.len() == 0 {
                Err(SshUrlError::EmptyPath)
            } else {
                Ok(UrlModel { host, remote_path: path })
            },
        }
    }
}

/// A host and a path as `scp` takes them.
pub open spec fn scp_source(host: Seq<char>, path: Seq<char>) -> Seq<char> {
    host + seq![':'] + path
}

/// Writes a host and a path as `scp` takes them.
pub fn scp_text(host: &str, path: &str) -> (r: String)
    ensures
        r@ == scp_source(host@, path@),
{
    let mut r = text::copy_of(host);
    r.push(':');
    r.append(path);
    assert(r@ =~= scp_source(host@, path@));
    r
}

impl SshUrl {
    /// Parses a URL like `ssh://myhost:/data/traces/trace.json`.
    pub fn parse(url: &str) -> (r: Result<SshUrl, SshUrlError>)
        ensures
            match r {
                Ok(u) => url_parts(url@) == Ok::<UrlModel, SshUrlError>(u@),
                Err(e) => url_parts(url@) == Err::<UrlModel, SshUrlError>(e),
            },
    {
        match text::strip_prefix(url, "ssh://") {
            None => Err(SshUrlError::MissingPrefix),
            Some(rest) => match text::split_text(rest.as_str(), ':') {
                None => Err(SshUrlError::MissingColon),
                Some((host, path)) => if host.as_str().is_empty() {
                    Err(SshUrlError::EmptyHost)
                } else if path.as_str().is_empty() {
                    Err(SshUrlError::EmptyPath)
                } else {
                    Ok(SshUrl { host, remote_path: path })
                },
            },
        }
    }

    /// Formats as `host:path` for use with `scp`.
    pub fn to_scp_source(&self) -> (r: String)
        ensures
            r@ == scp_source(self@.host, self@.remote_path),
    {
        scp_text(self.host.as_str(), self.remote_path.as_str())
    }
}

/// A host without `:` and a path, written as `ssh://` and their `scp` form, are read back.
pub proof fn law_url_reads_back(url: UrlModel)
    requires
        url.host.len() > 0,
        url.remote_path.len() > 0,
        !url.host.contains(':'),
    ensures
        url_parts("ssh://"@ + scp_source(url.host, url.remote_path)) == Ok::<UrlModel, SshUrlError>(url),
{
    let rest = scp_source(url.host, url.remote_path);
    let whole = "ssh://"@ + rest;
    assert(whole.take("ssh://"@.len() as int) == "ssh://"@);
    assert(whole.skip("ssh://"@.len() as int) == rest);
    let k = url.host.len();
    assert forall|i: int| 0 <= i < k implies rest[i] != ':' by {
        assert(rest[i] == url.host[i]);
        assert(url.host.contains(url.host[i]));
    }
    assert(rest[k as int] == ':');
    text::lemma_first_at(rest, ':', k);
    assert(rest.take(k as int) == url.host);
    assert(rest.skip(k as int + 1) == url.remote_path);
}

/// A URL that is read is `ssh://` and the `scp` form of what was read, and the host holds no
/// `:`.
pub proof fn law_url_is_its_parts(url: Seq<char>)
    requires
        url_parts(url) is Ok,
    ensures
        url == "ssh://"@ + scp_source(url_parts(url)->Ok_0.host, url_parts(url)->Ok_0.remote_path),
        url_parts(url)->Ok_0.host.len() > 0,
        url_parts(url)->Ok_0.remote_path.len() > 0,
        !url_parts(url)->Ok_0.host.contains(':'),
{
    let n = "ssh://"@.len() as int;
    let rest = url.skip(n);
    let parts = url_parts(url)->Ok_0;
    text::lemma_first_at_is_first(rest, ':');
    assert(url == url.take(n) + rest);
    assert(rest == scp_source(parts.host, parts.remote_path));
}

// ---------------------------------------------------------------------------------------------
// Commands

/// The output format of `find` that one line of a listing has.
pub open spec fn record_format() -> Seq<char> {
    "'%s\\t%TY-%Tm-%Td %TH:%TM\\t%p\\n'"@
}

/// The command that tells of what kind a path is.
pub open spec fn kind_command(path: Seq<char>) -> Seq<char> {
    "find -L '"@ + path + "' -maxdepth 0 -printf '%y\\n'"@
}

/// The command that lists one file.
pub open spec fn stat_command(path: Seq<char>) -> Seq<char> {
    "find -L '"@ + path + "' -maxdepth 0 -printf "@ + record_format()
}

/// The command that lists the trace files below a directory.
pub open spec fn list_command(dir: Seq<char>) -> Seq<char> {
    "find -L '"@ + dir + "' -type f \\( -name '*.json' -o -name '*.json.gz' \\) -printf "@
        + record_format()
}

/// Writes the command that tells of what kind a path is.
pub fn kind_command_text(path: &str) -> (r: String)
    ensures
        r@ == kind_command(path@),
{
    let mut r = text::copy_of("find -L '");
    r.append(path);
    r.append("' -maxdepth 0 -printf '%y\\n'");
    r
}

/// Writes the command that lists one file.
pub fn stat_command_text(path: &str) -> (r: String)
    ensures
        r@ == stat_command(path@),
{
    let mut r = text::copy_of("find -L '");
    r.append(path);
    r.append("' -maxdepth 0 -printf ");
    r.append("'%s\\t%TY-%Tm-%Td %TH:%TM\\t%p\\n'");
    r
}

/// Writes the command that lists the trace files below a directory.
pub fn list_command_text(dir: &str) -> (r: String)
    ensures
        r@ == list_command(dir@),
{
    let mut r = text::copy_of("find -L '");
    r.append(dir);
    r.append("' -type f \\( -name '*.json' -o -name '*.json.gz' \\) -printf ");
    r.append("'%s\\t%TY-%Tm-%Td %TH:%TM\\t%p\\n'");
    r
}

/// A command to run on a remote host.
#[derive(Debug)]
pub struct Query {
    pub host: String,
    pub command: String,
}

/// What is asked of which host.
pub struct QueryModel {
    pub host: Seq<char>,
    pub command: Seq<char>,
}

impl View for Query {
    type V = QueryModel;

    open spec fn view(&self) -> QueryModel {
        QueryModel { host: self.host@, command: self.command@ }
    }
}

/// What to ask for the listing of a directory that a URL names.
pub open spec fn listing_query(url: Seq<char>) -> Result<QueryModel, SshUrlError> {
    match url_parts(url) {
        Ok(parts) => Ok(QueryModel { host: parts.host, command: list_command(parts.remote_path) }),
        Err(e) => Err(e),
    }
}

/// Works out what to ask for the listing of a directory that a URL names.
pub fn list_query(url: &str) -> (r: Result<Query, SshUrlError>)
    ensures
        match r {
            Ok(q) => listing_query(url@) == Ok::<QueryModel, SshUrlError>(q@),
            Err(e) => listing_query(url@) == Err::<QueryModel, SshUrlError>(e),
        },
{
    match SshUrl::parse(url) {
        Ok(parts) => {
            let command = list_command_text(parts.remote_path.as_str());
            Ok(Query { host: parts.host, command })
        },
        Err(e) => Err(e),
    }
}

// ---------------------------------------------------------------------------------------------
// Listings

/// Information about a single remote file.
#[derive(Debug)]
pub struct RemoteFileInfo {
    pub path: String,
    pub size_bytes: u64,
    pub modified: String,
}

/// What is known of a remote file.
pub struct FileModel {
    pub path: Seq<char>,
    pub size_bytes: u64,
    pub modified: Seq<char>,
}

impl View for RemoteFileInfo {
    type V = FileModel;

    open spec fn view(&self) -> FileModel {
        FileModel { path: self.path@, size_bytes: self.size_bytes, modified: self.modified@ }
    }
}

impl RemoteFileInfo {
    /// The same information in a value of its own.
    pub fn copy(&self) -> (r: RemoteFileInfo)
        ensures
            r@ == self@,
    {
        RemoteFileInfo {
            path: self.path.clone(),
            size_bytes: self.size_bytes,
            modified: self.modified.clone(),
        }
    }
}

/// The files that a vector holds.
pub open spec fn files_of(v: Seq<RemoteFileInfo>) -> Seq<FileModel> {
    Seq::new(v.len(), |i: int| v[i]@)
}

/// Why the output of `find` could not be read.
#[derive(Debug)]
pub enum FindError {
    /// A line has fewer than two tabs.
    UnexpectedLine(String),
    /// The size is no 64-bit number.
    InvalidSize(String),
}

/// What is wrong with the output of `find`.
pub enum FindFault {
    UnexpectedLine(Seq<char>),
    InvalidSize(Seq<char>),
}

impl View for FindError {
    type V = FindFault;

    open spec fn view(&self) -> FindFault {
        match *self {
            FindError::UnexpectedLine(line) => FindFault::UnexpectedLine(line@),
            FindError::InvalidSize(s) => FindFault::InvalidSize(s@),
        }
    }
}

/// The file that one line tells of: its size, its modification time and its path, with a tab
/// between each two.
pub open spec fn find_record(line: Seq<char>) -> Result<FileModel, FindFault> {
    match text::split_once(line, '\t') {
        None => Err(FindFault::UnexpectedLine(line)),
        Some((size, rest)) => match text::split_once(rest, '\t') {
            None => Err(FindFault::UnexpectedLine(line)),
            Some((modified, path)) => match text::unsigned_value(size) {
                None => Err(FindFault::InvalidSize(size)),
                Some(n) => Ok(FileModel { path, size_bytes: n, modified }),
            },
        },
    }
}

/// The files that lines tell of, in their order. A line of white space tells of none, and the
/// first line that is wrong decides.
pub open spec fn find_records(lines: Seq<Seq<char>>) -> Result<Seq<FileModel>, FindFault>
    decreases lines.len(),
{
    if lines.len() == 0 {
        Ok(seq![])
    } else {
        match find_records(lines.drop_last()) {
            Err(e) => Err(e),
            Ok(files) => if text::trim(lines.last()).len() == 0 {
                Ok(files)
            } else {
                match find_record(lines.last()) {
                    Err(e) => Err(e),
                    Ok(f) => Ok(files.push(f)),
                }
            },
        }
    }
}

/// The files that the output of `find` tells of.
pub open spec fn find_output(output: Seq<char>) -> Result<Seq<FileModel>, FindFault> {
    find_records(text::lines(output))
}

proof fn lemma_fault_stays(lines: Seq<Seq<char>>, n: int)
    requires
        0 <= n <= lines.len(),
        find_records(lines.take(n)) is Err,
    ensures
        find_records(lines) == find_records(lines.take(n)),
    decreases lines.len() - n,
{
    if n == lines.len() {
        assert(lines.take(n) == lines);
    } else {
        assert(lines.take(n + 1).drop_last() == lines.take(n));
        lemma_fault_stays(lines, n + 1);
    }
}

/// The line that `find` writes for a file, without its newline.
pub open spec fn record_line(f: FileModel) -> Seq<char> {
    text::decimal(f.size_bytes as nat) + seq!['\t'] + f.modified + seq!['\t'] + f.path
}

/// The output of `find` for files.
pub open spec fn record_lines(files: Seq<FileModel>) -> Seq<char>
    decreases files.len(),
{
    if files.len() == 0 {
        seq![]
    } else {
        record_line(files[0]) + seq!['\n'] + record_lines(files.skip(1))
    }
}

/// Whether the output of `find` tells of a file without doubt: no tab in its modification time,
/// no newline in its time or path, and no carriage return at the end of its path.
pub open spec fn plain_file(f: FileModel) -> bool {
    &&& !f.modified.contains('\t')
    &&& !f.modified.contains('\n')
    &&& !f.path.contains('\n')
    &&& f.path.len() > 0 ==> f.path.last() != '\r'
}

proof fn lemma_record_line(f: FileModel)
    requires
        plain_file(f),
    ensures
        find_record(record_line(f)) == Ok::<FileModel, FindFault>(f),
        text::trim(record_line(f)).len() > 0,
        text::first_at(record_line(f), '\n') == record_line(f).len(),
        text::without_return(record_line(f)) == record_line(f),
{
    let size = text::decimal(f.size_bytes as nat);
    let line = record_line(f);
    let rest = f.modified + seq!['\t'] + f.path;
    text::lemma_decimal_digits(f.size_bytes as nat);
    text::law_decimal_reads_back(f.size_bytes);
    let k = size.len();
    assert forall|i: int| 0 <= i < k implies line[i] != '\t' && line[i] != '\n' by {
        assert(line[i] == size[i]);
        assert(text::is_digit(size[i]));
    }
    text::lemma_first_at(line, '\t', k);
    assert(line.take(k as int) == size);
    assert(line.skip(k as int + 1) == rest);
    let m = f.modified.len();
    assert forall|i: int| 0 <= i < m implies rest[i] != '\t' by {
        assert(f.modified.contains(f.modified[i]));
    }
    text::lemma_first_at(rest, '\t', m);
    assert(rest.take(m as int) == f.modified);
    assert(rest.skip(m as int + 1) == f.path);
    assert forall|i: int| 0 <= i < line.len() implies line[i] != '\n' by {
        if i > k && i - k - 1 < m {
            assert(line[i] == f.modified[i - k - 1]);
            assert(f.modified.contains(f.modified[i - k - 1]));
        } else if i > k + m + 1 {
            assert(line[i] == f.path[i - k - m - 2]);
            assert(f.path.contains(f.path[i - k - m - 2]));
        }
    }
    text::lemma_first_at(line, '\n', line.len());
    if f.path.len() > 0 {
        assert(line.last() == f.path.last());
    } else {
        assert(line.last() == '\t');
    }
    assert(line[0] == size[0]);
    assert(text::is_digit(size[0]));
    assert(text::trim_start(line) == line);
    text::lemma_trim_end_keeps(line, 0);
}

/// What `find` writes for files is read back as those files, in their order.
pub proof fn law_listing_reads_back(files: Seq<FileModel>)
    requires
        forall|i: int| 0 <= i < files.len() ==> plain_file(#[trigger] files[i]),
    ensures
        find_output(record_lines(files)) == Ok::<Seq<FileModel>, FindFault>(files),
{
    let lines = Seq::new(files.len(), |i: int| record_line(files[i]));
    lemma_lines_of_records(files);
    assert forall|n: int| 0 <= n <= files.len() implies #[trigger] find_records(lines.take(n)) == Ok::<
        Seq<FileModel>,
        FindFault,
    >(files.take(n)) by {
        lemma_records_read(files, lines, n);
    }
    assert(lines.take(lines.len() as int) == lines);
    assert(files.take(files.len() as int) == files);
}

proof fn lemma_lines_of_records(files: Seq<FileModel>)
    requires
        forall|i: int| 0 <= i < files.len() ==> plain_file(#[trigger] files[i]),
    ensures
        text::lines(record_lines(files)) == Seq::new(files.len(), |i: int| record_line(files[i])),
    decreases files.len(),
{
    let want = Seq::new(files.len(), |i: int| record_line(files[i]));
    if files.len() == 0 {
        assert(want =~= seq![]);
    } else {
        let rest = files.skip(1);
        assert forall|i: int| 0 <= i < rest.len() implies plain_file(#[trigger] rest[i]) by {
            assert(rest[i] == files[i + 1]);
        }
        lemma_lines_of_records(rest);
        assert(plain_file(files[0]));
        let line = record_line(files[0]);
        lemma_record_line(files[0]);
        text::lemma_first_at_is_first(line, '\n');
        let whole = record_lines(files);
        let k = line.len();
        assert forall|i: int| 0 <= i < k implies whole[i] != '\n' by {
            assert(whole[i] == line[i]);
        }
        assert(whole[k as int] == '\n');
        text::lemma_first_at(whole, '\n', k);
        assert(whole.take(k as int) == line);
        assert(whole.skip(k as int + 1) == record_lines(rest));
        let tail = Seq::new(rest.len(), |i: int| record_line(rest[i]));
        assert(want =~= seq![line] + tail);
    }
}

proof fn lemma_records_read(files: Seq<FileModel>, lines: Seq<Seq<char>>, n: int)
    requires
        forall|i: int| 0 <= i < files.len() ==> plain_file(#[trigger] files[i]),
        lines == Seq::new(files.len(), |i: int| record_line(files[i])),
        0 <= n <= files.len(),
    ensures
        find_records(lines.take(n)) == Ok::<Seq<FileModel>, FindFault>(files.take(n)),
    decreases n,
{
    if n == 0 {
        assert(files.take(0) =~= seq![]);
    } else {
        lemma_records_read(files, lines, n - 1);
        assert(plain_file(files[n - 1]));
        lemma_record_line(files[n - 1]);
        assert(lines.take(n).drop_last() == lines.take(n - 1));
        assert(files.take(n) == files.take(n - 1).push(files[n - 1]));
    }
}

fn parse_record(line: &str) -> (r: Result<RemoteFileInfo, FindError>)
    ensures
        match r {
            Ok(f) => find_record(line@) == Ok::<FileModel, FindFault>(f@),
            Err(e) => find_record(line@) == Err::<FileModel, FindFault>(e@),
        },
{
    match text::split_text(line, '\t') {
        None => Err(FindError::UnexpectedLine(text::copy_of(line))),
        Some((size, rest)) => match text::split_text(rest.as_str(), '\t') {
            None => Err(FindError::UnexpectedLine(text::copy_of(line))),
            Some((modified, path)) => match text::parse_unsigned(size.as_str()) {
                None => Err(FindError::InvalidSize(size)),
                Some(n) => Ok(RemoteFileInfo { path, size_bytes: n, modified }),
            },
        },
    }
}

/// Parses output lines of `find` in the format of a listing.
pub fn parse_find_printf_output(output: &str) -> (r: Result<Vec<RemoteFileInfo>, FindError>)
    ensures
        match r {
            Ok(files) => find_output(output@) == Ok::<Seq<FileModel>, FindFault>(files_of(files@)),
            Err(e) => find_output(output@) == Err::<Seq<FileModel>, FindFault>(e@),
        },
{
    let lines = text::split_lines(output);
    let ghost all = text::lines(output@);
    let mut files: Vec<RemoteFileInfo> = Vec::new();
    assert(files_of(files@) == Seq::<FileModel>::empty());
    for i in 0..lines.len()
        invariant
            all == text::lines(output@),
            text::texts(lines@) == all,
            find_records(all.take(i as int)) == Ok::<Seq<FileModel>, FindFault>(files_of(files@)),
    {
        proof {
            assert(all.take(i + 1).drop_last() == all.take(i as int));
            assert(all.take(i + 1).last() == lines@[i as int]@);
        }
        let line = lines[i].as_str();
        if !text::trimmed(line).as_str().is_empty() {
            let ghost before = files_of(files@);
            match parse_record(line) {
                Ok(f) => {
                    files.push(f);
                    assert(files_of(files@) == before.push(f@));
                },
                Err(e) => {
                    proof {
                        lemma_fault_stays(all, i + 1);
                    }
                    return Err(e);
                },
            }
        }
    }
    assert(all.take(all.len() as int) == all);
    Ok(files)
}

/// Files, the most recently modified first; files modified at the same time keep their order.
pub open spec fn newest_first(files: Seq<FileModel>) -> Seq<FileModel> {
    let order = order::sorted_positions(modification_times(files));
    Seq::new(files.len(), |i: int| files[order[i]])
}

/// The modification times of files, later ones first.
pub open spec fn modification_times(files: Seq<FileModel>) -> Seq<order::Descending<Seq<char>>> {
    Seq::new(files.len(), |i: int| order::Descending(files[i].modified))
}

/// A listing holds the files that were found, none after one that was modified earlier.
pub proof fn law_listing_is_newest_first(files: Seq<FileModel>)
    ensures
        newest_first(files).len() == files.len(),
        forall|f: FileModel| newest_first(files).contains(f) <==> files.contains(f),
        forall|i: int, j: int|
            0 <= i < j < files.len() ==> !order::text_less(
                (#[trigger] newest_first(files)[i]).modified,
                (#[trigger] newest_first(files)[j]).modified,
            ),
{
    let times = modification_times(files);
    let ord = order::sorted_positions(times);
    let sorted = newest_first(files);
    order::law_stable_order(times, times.len());
    assert forall|f: FileModel| sorted.contains(f) <==> files.contains(f) by {
        if sorted.contains(f) {
            let i = sorted.index_of(f);
            assert(files[ord[i]] == f);
        }
        if files.contains(f) {
            let p = files.index_of(f);
            assert(ord.contains(p));
            assert(sorted[ord.index_of(p)] == f);
        }
    }
    assert forall|i: int, j: int| 0 <= i < j < files.len() implies !order::text_less(
        (#[trigger] sorted[i]).modified,
        (#[trigger] sorted[j]).modified,
    ) by {
        let p = ord[i];
        let q = ord[j];
        assert(order::precedes(times, p, q));
        if order::text_less(files[p].modified, files[q].modified) {
            order::lemma_text_asymmetric(files[p].modified, files[q].modified);
        }
    }
}

/// Sorts files by modification time, the latest first.
pub fn sort_newest_first(files: &Vec<RemoteFileInfo>) -> (r: Vec<RemoteFileInfo>)
    ensures
        files_of(r@) == newest_first(files_of(files@)),
{
    let mut keys: Vec<order::Descending<String>> = Vec::new();
    for i in 0..files.len()
        invariant
            keys@.len() == i,
            forall|k: int| 0 <= k < i ==> (#[trigger] keys@[k]).0@ == files@[k].modified@,
    {
        keys.push(order::Descending(files[i].modified.clone()));
    }
    let ghost times = modification_times(files_of(files@));
    assert(order::ranks(keys@) == times);
    let sorted = order::sort_positions(&keys);
    proof {
        order::law_stable_order(times, times.len());
    }
    let ghost ord = order::sorted_positions(times);
    let mut r: Vec<RemoteFileInfo> = Vec::new();
    for i in 0..sorted.len()
        invariant
            ord == order::sorted_positions(times),
            times == modification_times(files_of(files@)),
            order::positions(sorted@) == ord,
            order::is_order(times, ord, 0, files@.len() as int),
            r@.len() == i,
            forall|k: int| 0 <= k < i ==> (#[trigger] r@[k])@ == files_of(files@)[ord[k]],
    {
        assert(ord[i as int] == sorted@[i as int]);
        r.push(files[sorted[i]].copy());
    }
    assert(files_of(r@) == newest_first(files_of(files@)));
    r
}

/// Reads the listing of a directory, the most recently modified files first.
pub fn list_remote_dir(output: &str) -> (r: Result<Vec<RemoteFileInfo>, FindError>)
    ensures
        match r {
            Ok(files) => find_output(output@) matches Ok(found) && files_of(files@) == newest_first(found),
            Err(e) => find_output(output@) == Err::<Seq<FileModel>, FindFault>(e@),
        },
{
    match parse_find_printf_output(output) {
        Ok(files) => Ok(sort_newest_first(&files)),
        Err(e) => Err(e),
    }
}

/// Why a single remote file could not be looked up.
#[derive(Debug)]
pub enum StatError {
    /// The output could not be read.
    Find(FindError),
    /// No file was listed.
    NotFound,
}

/// Reads the listing of a single file: the last one listed.
pub fn stat_remote_file(output: &str) -> (r: Result<RemoteFileInfo, StatError>)
    ensures
        match r {
            Ok(f) => find_output(output@) matches Ok(found) && found.len() > 0 && f@ == found.last(),
            Err(StatError::NotFound) => find_output(output@) matches Ok(found) && found.len() == 0,
            Err(StatError::Find(e)) => find_output(output@) == Err::<Seq<FileModel>, FindFault>(e@),
        },
{
    match parse_find_printf_output(output) {
        Ok(files) => {
            let mut files = files;
            match files.pop() {
                Some(f) => Ok(f),
                None => Err(StatError::NotFound),
            }
        },
        Err(e) => Err(StatError::Find(e)),
    }
}

/// The line of a listing for one file.
pub open spec fn listing_line(f: FileModel) -> Seq<char> {
    text::pad_right(size::size_text(f.size_bytes as nat), 12) + " "@ + text::pad_right(f.modified, 20)
        + " "@ + f.path
}

/// A listing for people to read: a header, a rule and a line for each file, or nothing if there
/// is no file.
pub open spec fn listing(files: Seq<FileModel>) -> Seq<Seq<char>> {
    if files.len() == 0 {
        seq![]
    } else {
        seq![
            text::pad_right("Size"@, 12) + " "@ + text::pad_right("Modified"@, 20) + " Path"@,
            text::repeated('-', 72),
        ] + Seq::new(files.len(), |i: int| listing_line(files[i]))
    }
}

fn line_text(f: &RemoteFileInfo) -> (r: String)
    ensures
        r@ == listing_line(f@),
{
    let mut r = String::new();
    text::push_padded(&mut r, size::format_size(f.size_bytes).as_str(), 12);
    r.append(" ");
    text::push_padded(&mut r, f.modified.as_str(), 20);
    r.append(" ");
    r.append(f.path.as_str());
    assert(r@ =~= listing_line(f@));
    r
}

/// Writes a listing for people to read.
pub fn listing_texts(files: &Vec<RemoteFileInfo>) -> (r: Vec<String>)
    ensures
        text::texts(r@) == listing(files_of(files@)),
{
    let mut r: Vec<String> = Vec::new();
    if files.len() == 0 {
        assert(text::texts(r@) =~= listing(files_of(files@)));
        return r;
    }
    let mut header = String::new();
    text::push_padded(&mut header, "Size", 12);
    header.append(" ");
    text::push_padded(&mut header, "Modified", 20);
    header.append(" Path");
    assert(header@ =~= text::pad_right("Size"@, 12) + " "@ + text::pad_right("Modified"@, 20)
        + " Path"@);
    let ghost first = header@;
    r.push(header);
    let mut rule = String::new();
    text::push_repeated(&mut rule, '-', 72);
    assert(rule@ =~= text::repeated('-', 72));
    r.push(rule);
    for i in 0..files.len()
        invariant
            r@.len() == i + 2,
            r@[0]@ == first,
            r@[1]@ == text::repeated('-', 72),
            forall|k: int| 0 <= k < i ==> (#[trigger] r@[k + 2])@ == listing_line(files@[k]@),
    {
        let ghost before = r@;
        r.push(line_text(&files[i]));
        assert forall|k: int| 0 <= k < i + 1 implies (#[trigger] r@[k + 2])@ == listing_line(files@[k]@) by {
            if k < i {
                assert(r@[k + 2] == before[k + 2]);
            }
        }
    }
    proof {
        let want = listing(files_of(files@));
        assert forall|j: int| 0 <= j < want.len() implies text::texts(r@)[j] == want[j] by {
            if j >= 2 {
                assert(r@[(j - 2) + 2]@ == listing_line(files@[j - 2]@));
            }
        }
        assert(text::texts(r@) =~= want);
    }
    r
}

/// Turns the listing of a remote directory into lines for people to read.
pub fn run_list(output: &str) -> (r: Result<Vec<String>, FindError>)
    ensures
        match r {
            Ok(lines) => find_output(output@) matches Ok(found) && text::texts(lines@) == listing(
                newest_first(found),
            ),
            Err(e) => find_output(output@) == Err::<Seq<FileModel>, FindFault>(e@),
        },
{
    match list_remote_dir(output) {
        Ok(files) => Ok(listing_texts(&files)),
        Err(e) => Err(e),
    }
}

// ---------------------------------------------------------------------------------------------
// Kinds of paths

/// What a remote path leads to.
#[derive(Debug, Clone, Copy, PartialEq, Eq)]
pub enum PathKind {
    File,
    Dir,
}

/// The kind that the output of the command tells: a file or a directory, or neither.
pub open spec fn path_kind(output: Seq<char>) -> Option<PathKind> {
    if text::trim(output) == "d"@ {
        Some(PathKind::Dir)
    } else if text::trim(output) == "f"@ {
        Some(PathKind::File)
    } else {
        None
    }
}

/// Tells what a remote path leads to, from the output of the command that asks for it. What is
/// neither a file nor a directory is handed back.
pub fn classify_remote(output: &str) -> (r: Result<PathKind, String>)
    ensures
        match r {
            Ok(kind) => path_kind(output@) == Some(kind),
            Err(other) => path_kind(output@) is None && other@ == text::trim(output@),
        },
{
    let kind = text::trimmed(output);
    proof {
        reveal_strlit("d");
        reveal_strlit("f");
        assert("d"@[0] != "f"@[0]);
    }
    if text::same(kind.as_str(), "d") {
        Ok(PathKind::Dir)
    } else if text::same(kind.as_str(), "f") {
        Ok(PathKind::File)
    } else {
        Err(kind)
    }
}

// ---------------------------------------------------------------------------------------------
// What is read and written

/// Why a text is no URL, in this order: it does not start with `ssh://`, no `:` follows, nothing stands
/// before that `:`, or nothing behind it.
pub proof fn law_url_faults(url: Seq<char>, host: Seq<char>, path: Seq<char>)
    requires
        !host.contains(':'),
    ensures
        (forall|rest: Seq<char>| url != "ssh://"@ + rest) <==> url_parts(url) == Err::<
            UrlModel,
            SshUrlError,
        >(SshUrlError::MissingPrefix),
        url_parts("ssh://"@ + host) == Err::<UrlModel, SshUrlError>(SshUrlError::MissingColon),
        url_parts("ssh://"@ + (seq![':'] + path)) == Err::<UrlModel, SshUrlError>(
            SshUrlError::EmptyHost,
        ),
        host.len() > 0 ==> url_parts("ssh://"@ + (host + seq![':'])) == Err::<UrlModel, SshUrlError>(
            SshUrlError::EmptyPath,
        ),
        host.len() > 0 && path.len() > 0 ==> url_parts("ssh://"@ + (host + seq![':'] + path)) == Ok::<
            UrlModel,
            SshUrlError,
        >(UrlModel { host, remote_path: path }),
{
    let n = "ssh://"@.len() as int;
    if text::has_prefix(url, "ssh://"@) {
        text::law_prefix_and_suffix(url, "ssh://"@, url);
        assert(url == "ssh://"@ + url.skip(n));
    } else {
        assert forall|rest: Seq<char>| url != "ssh://"@ + rest by {
            text::law_prefix_and_suffix(url, "ssh://"@, rest);
        }
    }
    let none = Seq::<char>::empty();
    let a = host;
    let b = seq![':'] + path;
    let c = host + seq![':'];
    let d = host + seq![':'] + path;
    text::law_prefix_and_suffix(url, "ssh://"@, a);
    text::law_prefix_and_suffix(url, "ssh://"@, b);
    text::law_prefix_and_suffix(url, "ssh://"@, c);
    text::law_prefix_and_suffix(url, "ssh://"@, d);
    assert(("ssh://"@ + a).skip(n) =~= a);
    assert(("ssh://"@ + b).skip(n) =~= b);
    assert(("ssh://"@ + c).skip(n) =~= c);
    assert(("ssh://"@ + d).skip(n) =~= d);
    text::law_split_is_at_the_first(a, ':', none, none);
    assert(b =~= none + seq![':'] + path);
    text::law_split_is_at_the_first(b, ':', none, path);
    assert(c =~= host + seq![':'] + none);
    text::law_split_is_at_the_first(c, ':', host, none);
    text::law_split_is_at_the_first(d, ':', host, path);
}

/// What `scp` takes is the host, a `:` and the path.
pub proof fn law_scp_source_is_host_and_path(host: Seq<char>, path: Seq<char>)
    ensures
        scp_source(host, path) == host + seq![':'] + path,
{
}

/// The commands hold the path between quotes, in a text that does not depend on it.
pub proof fn law_commands_quote_the_path(path: Seq<char>)
    ensures
        kind_command(path) == "find -L '"@ + path + "' -maxdepth 0 -printf '%y\\n'"@,
        stat_command(path) == "find -L '"@ + path + "' -maxdepth 0 -printf "@
            + "'%s\\t%TY-%Tm-%Td %TH:%TM\\t%p\\n'"@,
        list_command(path) == "find -L '"@ + path
            + "' -type f \\( -name '*.json' -o -name '*.json.gz' \\) -printf "@
            + "'%s\\t%TY-%Tm-%Td %TH:%TM\\t%p\\n'"@,
{
}

/// A line of a listing is a size, a modification time and a path with tabs between, of which the path
/// may hold more. Without two tabs it is not expected, and a size that is no number is invalid.
pub proof fn law_record_is_size_time_and_path(
    line: Seq<char>,
    size: Seq<char>,
    modified: Seq<char>,
    path: Seq<char>,
)
    requires
        !size.contains('\t'),
        !modified.contains('\t'),
    ensures
        text::unsigned_value(size) is Some ==> find_record(
            size + seq!['\t'] + (modified + seq!['\t'] + path),
        ) == Ok::<FileModel, FindFault>(
            (FileModel { path, size_bytes: text::unsigned_value(size)->0, modified }),
        ),
        text::unsigned_value(size) is None ==> find_record(
            size + seq!['\t'] + (modified + seq!['\t'] + path),
        ) == Err::<FileModel, FindFault>(FindFault::InvalidSize(size)),
        find_record(size + seq!['\t'] + modified) == Err::<FileModel, FindFault>(
            FindFault::UnexpectedLine(size + seq!['\t'] + modified),
        ),
        find_record(size) == Err::<FileModel, FindFault>(FindFault::UnexpectedLine(size)),
{
    let rest = modified + seq!['\t'] + path;
    text::law_split_is_at_the_first(size + seq!['\t'] + rest, '\t', size, rest);
    text::law_split_is_at_the_first(rest, '\t', modified, path);
    text::law_split_is_at_the_first(size + seq!['\t'] + modified, '\t', size, modified);
    text::law_split_is_at_the_first(modified, '\t', size, path);
    text::law_split_is_at_the_first(size, '\t', size, path);
}

/// Lines are read one after the other: a line of white space adds nothing, any other adds its file or
/// is the fault, and once there is a fault nothing changes it.
pub proof fn law_records_are_read_line_by_line(lines: Seq<Seq<char>>, line: Seq<char>)
    ensures
        find_records(Seq::empty()) == Ok::<Seq<FileModel>, FindFault>(Seq::empty()),
        find_records(lines) is Err ==> find_records(lines.push(line)) == find_records(lines),
        find_records(lines) is Ok && text::trim(line).len() == 0 ==> find_records(lines.push(line))
            == find_records(lines),
        find_records(lines) is Ok && (text::trim(line).len() != 0) && find_record(line) is Ok
            ==> find_records(lines.push(line)) == Ok::<Seq<FileModel>, FindFault>(
            find_records(lines)->Ok_0.push(find_record(line)->Ok_0),
        ),
        find_records(lines) is Ok && (text::trim(line).len() != 0) && find_record(line) is Err
            ==> find_records(lines.push(line)) == Err::<Seq<FileModel>, FindFault>(
            find_record(line)->Err_0,
        ),
{
    assert(lines.push(line).drop_last() =~= lines);
}

/// A listing is a rearrangement of the files: each stands at one place of it, files that were modified
/// later come first, and those modified at the same time keep their order.
pub proof fn law_listing_rearranges_the_files(files: Seq<FileModel>)
    ensures
        newest_first(files).len() == files.len(),
        exists|at: Seq<int>|
            at.len() == files.len() && (forall|p: int| 0 <= p < files.len() ==> #[trigger] at.contains(p))
                && (forall|i: int|
                0 <= i < files.len() ==> 0 <= #[trigger] at[i] < files.len() && newest_first(files)[i]
                    == files[at[i]]) && (forall|i: int, j: int|
                0 <= i < j < files.len() ==> order::text_less(
                    files[#[trigger] at[j]].modified,
                    files[#[trigger] at[i]].modified,
                ) || (files[at[i]].modified == files[at[j]].modified && at[i] < at[j])),
{
    let times = modification_times(files);
    let at = order::sorted_positions(times);
    order::law_stable_order(times, times.len());
    assert forall|i: int, j: int| 0 <= i < j < files.len() implies order::text_less(
        files[#[trigger] at[j]].modified,
        files[#[trigger] at[i]].modified,
    ) || (files[at[i]].modified == files[at[j]].modified && at[i] < at[j]) by {
        let p = at[i];
        let q = at[j];
        assert(order::precedes(times, p, q));
        order::lemma_text_total(files[p].modified, files[q].modified);
        order::lemma_text_irreflexive(files[p].modified);
        if order::text_less(files[p].modified, files[q].modified) {
            order::lemma_text_asymmetric(files[p].modified, files[q].modified);
        }
    }
    assert forall|i: int| 0 <= i < files.len() implies 0 <= #[trigger] at[i] < files.len() && newest_first(
        files,
    )[i] == files[at[i]] by {}
}

/// A listing for people has a heading, a rule of 72 dashes, and for each file its size, its
/// modification time and its path, padded to columns. Without files it is empty.
pub proof fn law_listing_has_a_line_for_each_file(files: Seq<FileModel>, i: int)
    requires
        0 <= i < files.len(),
    ensures
        listing(Seq::empty()) == Seq::<Seq<char>>::empty(),
        listing(files).len() == files.len() + 2,
        listing(files)[0] == text::pad_right("Size"@, 12) + " "@ + text::pad_right("Modified"@, 20)
            + " Path"@,
        listing(files)[1].len() == 72,
        forall|k: int| 0 <= k < 72 ==> #[trigger] listing(files)[1][k] == '-',
        listing(files)[i + 2] == text::pad_right(size::size_text(files[i].size_bytes as nat), 12) + " "@
            + text::pad_right(files[i].modified, 20) + " "@ + files[i].path,
{
}

/// A path is a directory exactly if the answer is `d` within white space, and a file exactly if it is
/// `f`.
pub proof fn law_kinds_are_told_by_letters(output: Seq<char>)
    ensures
        path_kind(output) == Some(PathKind::Dir) <==> text::trim(output) == seq!['d'],
        path_kind(output) == Some(PathKind::File) <==> text::trim(output) == seq!['f'],
{
    reveal_strlit("d");
    reveal_strlit("f");
    assert("d"@ =~= seq!['d']);
    assert("f"@ =~= seq!['f']);
    assert(seq!['d'][0] != seq!['f'][0]);
}

/// A listing is asked of the host that a URL names, for the directory that it names, and of a URL that
/// cannot be read nothing is asked.
pub proof fn law_listing_is_asked_of_the_host(url: Seq<char>, parts: UrlModel, fault: SshUrlError)
    ensures
        url_parts(url) == Ok::<UrlModel, SshUrlError>(parts) ==> listing_query(url) == Ok::<
            QueryModel,
            SshUrlError,
        >(
            (QueryModel {
                host: parts.host,
                command: "find -L '"@ + parts.remote_path
                    + "' -type f \\( -name '*.json' -o -name '*.json.gz' \\) -printf "@
                    + "'%s\\t%TY-%Tm-%Td %TH:%TM\\t%p\\n'"@,
            }),
        ),
        url_parts(url) == Err::<UrlModel, SshUrlError>(fault) ==> listing_query(url) == Err::<
            QueryModel,
            SshUrlError,
        >(fault),
{
}

} // verus!
