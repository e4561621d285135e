//! The driver for ftp servers: which urls it serves, and what it makes of what a
//! server answers.
use crate::blocks;
use crate::blocks::ReadPlan;
use crate::progress;
use crate::progress::Progress;
use crate::progress::Report;
use crate::text;
use crate::types::FilesDirs;
use crate::types::InternalError;
use vstd::prelude::*;

verus! {

/// Files on an ftp server.
#[derive(Debug)]
pub struct FtpFs {}

/// What is to be done about a path on a server.
#[derive(Debug)]
pub enum FtpLoad {
    /// It is a directory.
    Directory,
    /// It is a file of this size, to be fetched in this way.
    Fetch { size: usize, plan: ReadPlan },
}

/// What urls of ftp servers start with, once their slashes are not repeated.
pub open spec fn ftp_url() -> Seq<char> {
    seq!['f', 't', 'p', ':', '/']
}

/// What the names of ftp servers start with.
pub open spec fn ftp_host() -> Seq<char> {
    seq!['f', 't', 'p', '.']
}

/// The url is that of an ftp server.
pub open spec fn is_ftp(url: Seq<char>) -> bool {
    ftp_url().is_prefix_of(url) || ftp_host().is_prefix_of(url)
}

/// A url without the scheme.
pub open spec fn without_scheme(url: Seq<char>) -> Seq<char> {
    if ftp_url().is_prefix_of(url) {
        url.skip(ftp_url().len() as int)
    } else {
        url
    }
}

/// The server of a url: what stands before the first slash that does not belong
/// to the scheme.
pub open spec fn server_name(url: Seq<char>) -> Seq<char> {
    without_scheme(url).take(text::first_at(without_scheme(url), '/'))
}

/// The address of the server of a url: the port of ftp, unless another is given.
pub open spec fn server_address(url: Seq<char>) -> Seq<char> {
    if server_name(url).contains(':') {
        server_name(url)
    } else {
        server_name(url) + seq![':', '2', '1']
    }
}

/// A line of a listing is that of a directory.
pub open spec fn is_dir_line(line: Seq<char>) -> bool {
    line.len() > 0 && line[0] == 'd'
}

/// The names in those lines of a listing that are directories, or in those that
/// are not. Names stand ninth in a line.
pub open spec fn line_names(lines: Seq<Seq<char>>, dirs: bool) -> Seq<Seq<char>>
    decreases lines.len(),
{
    if lines.len() == 0 {
        seq![]
    } else {
        let before = line_names(lines.drop_last(), dirs);
        let fields = text::words(lines.last());
        if is_dir_line(fields[0]) == dirs {
            before.push(fields[8])
        } else {
            before
        }
    }
}

/// `ftp:/`
fn ftp_url_chars() -> (chars: Vec<char>)
    ensures
        chars@ == ftp_url(),
{
    let chars = vec!['f', 't', 'p', ':', '/'];
    assert(chars@ =~= ftp_url());
    chars
}

/// `ftp.`
fn ftp_host_chars() -> (chars: Vec<char>)
    ensures
        chars@ == ftp_host(),
{
    let chars = vec!['f', 't', 'p', '.'];
    assert(chars@ =~= ftp_host());
    chars
}

impl FtpFs {
    pub fn new() -> (fs: FtpFs)
        ensures
            fs == (FtpFs {  }),
    {
        FtpFs {  }
    }

    /// The server of a url. Every url has one.
    pub fn find_server_name(url: &str) -> (name: Option<String>)
        ensures
            name matches Some(name) && name@ == server_name(url@),
    {
        let chars = text::chars_of(url);
        let scheme = ftp_url_chars();
        let from: usize = if text::starts_with(&chars, &scheme) {
            scheme.len()
        } else {
            0
        };
        assert(chars@.skip(from as int) =~= without_scheme(url@));
        let to: usize = text::find_char(&chars, from, '/');
        let name: String = text::text_of(&chars, from, to);
        assert(name@ =~= server_name(url@));
        Some(name)
    }

    /// Files on a server have no path on this machine.
    pub fn is_remote(&self) -> (b: bool)
        ensures
            b,
    {
        true
    }

    pub fn name(&self) -> (name: &'static str)
        ensures
            name@ == "ftp_fs"@,
    {
        "ftp_fs"
    }

    /// Only urls of ftp servers are supported.
    pub fn supports_url(&self, url: &str) -> (b: bool)
        ensures
            b == is_ftp(url@),
    {
        let chars = text::chars_of(url);
        text::starts_with(&chars, &ftp_url_chars()) || text::starts_with(&chars, &ftp_host_chars())
    }

    pub fn create_instance(&self) -> (fs: FtpFs)
        ensures
            fs == (FtpFs {  }),
    {
        FtpFs::new()
    }

    /// Data is not a server.
    pub fn can_load_from_data(&self, _data: &[u8]) -> (b: bool)
        ensures
            !b,
    {
        false
    }

    /// Data is not a server.
    pub fn create_from_data(&self, _data: Box<[u8]>) -> (fs: Option<FtpFs>)
        ensures
            fs is None,
    {
        None
    }

    /// A driver is made for a server, not for a path on it.
    pub fn can_load_from_url(&self, url: &str) -> (b: bool)
        ensures
            b == (is_ftp(url@) && !without_scheme(url@).contains('/')),
    {
        if !self.supports_url(url) {
            return false;
        }
        let chars = text::chars_of(url);
        let scheme = ftp_url_chars();
        let from: usize = if text::starts_with(&chars, &scheme) {
            scheme.len()
        } else {
            0
        };
        assert(chars@.skip(from as int) =~= without_scheme(url@));
        proof {
            text::lemma_first_at(without_scheme(url@), '/');
        }
        text::find_char(&chars, from, '/') == chars.len()
    }

    /// The address to connect to for a url.
    pub fn create_from_url(&self, url: &str) -> (address: Option<String>)
        ensures
            address matches Some(address) && address@ == server_address(url@),
    {
        match FtpFs::find_server_name(url) {
            Some(name) => {
                let chars = text::chars_of(name.as_str());
                proof {
                    text::lemma_first_at(name@, ':');
                    assert(chars@.skip(0) =~= name@);
                }
                if text::find_char(&chars, 0, ':') < chars.len() {
                    Some(name)
                } else {
                    proof {
                        reveal_strlit(":21");
                        assert(":21"@ =~= seq![':', '2', '1']);
                    }
                    Some(text::joined(name.as_str(), ":21"))
                }
            },
            None => None,
        }
    }

    /// Decides how a path is loaded, given the server's listing of it. A listing
    /// of one line that is not a directory is that of a file, whose size stands
    /// fifth in it.
    pub fn load_url(&self, lines: &Vec<String>) -> (load: Result<FtpLoad, InternalError>)
        requires
            lines@.len() == 1 && !is_dir_line(lines@[0]@) ==> text::words(lines@[0]@).len() >= 5,
        ensures
            if lines@.len() == 1 && !is_dir_line(lines@[0]@) {
                match text::number(text::words(lines@[0]@)[4]) {
                    Some(number) => {
                        &&& load matches Ok(FtpLoad::Fetch { size, plan })
                        &&& size == number
                        &&& blocks::is_server_plan(plan, number)
                    },
                    None => load == Err::<FtpLoad, InternalError>(InternalError::ParseError),
                }
            } else {
                load == Ok::<FtpLoad, InternalError>(FtpLoad::Directory)
            },
    {
        if lines.len() != 1 {
            return Ok(FtpLoad::Directory);
        }
        let chars = text::chars_of(lines[0].as_str());
        if chars.len() > 0 && chars[0] == 'd' {
            return Ok(FtpLoad::Directory);
        }
        let fields = text::split_whitespace(lines[0].as_str());
        assert(text::texts(fields@).len() == fields@.len());
        assert(text::texts(fields@)[4] == fields@[4]@);
        match text::parse_number(fields[4].as_str()) {
            Some(size) => Ok(FtpLoad::Fetch { size, plan: blocks::plan_fetch(size) }),
            None => Err(InternalError::ParseError),
        }
    }

    /// Sorts the lines of a listing into directories and everything else, each in
    /// the order of names. The lines have this form:
    ///
    /// -rw-rw-r--    1 1001       1001          5046034 May 25 16:00 allmods.zip
    /// drwxrwxr-x    7 1001       1001             4096 Jan 20  2018 incoming
    pub fn get_directory_list<R: Report>(&self, lines: &Vec<String>, progress: &mut Progress<R>) -> (result:
        Result<FilesDirs, InternalError>)
        requires
            forall|i: int|
                0 <= i < lines@.len() ==> text::words((#[trigger] lines@[i])@).len() >= 9,
        ensures
            match result {
                Ok(files_dirs) => {
                    &&& text::in_order(files_dirs@.files)
                    &&& text::in_order(files_dirs@.dirs)
                    &&& files_dirs@.files.to_multiset() == line_names(
                        text::texts(lines@),
                        false,
                    ).to_multiset()
                    &&& files_dirs@.dirs.to_multiset() == line_names(
                        text::texts(lines@),
                        true,
                    ).to_multiset()
                    &&& files_dirs@.files.to_multiset() == text::texts(lines@).filter(
                        |line: Seq<char>| !seq!['d'].is_prefix_of(text::words(line)[0]),
                    ).map_values(|line: Seq<char>| text::words(line)[8]).to_multiset()
                    &&& files_dirs@.dirs.to_multiset() == text::texts(lines@).filter(
                        |line: Seq<char>| seq!['d'].is_prefix_of(text::words(line)[0]),
                    ).map_values(|line: Seq<char>| text::words(line)[8]).to_multiset()
                    &&& progress::told_all(*old(progress), *final(progress), 2, 2)
                },
                Err(e) => {
                    &&& e == InternalError::SendError
                    &&& exists|n: int|
                        0 <= n < 2 && #[trigger] progress::stopped(
                            *old(progress),
                            *final(progress),
                            2,
                            n,
                        )
                },
            },
    {
        let ghost all = text::texts(lines@);
        let ghost told = progress.to.told();
        progress.set_step(2);
        if let Err(e) = progress.step() {
            assert(progress.to.told() =~= told + progress::steps(2, 0));
            assert(progress::stopped(*old(progress), *progress, 2, 0));
            return Err(e);
        }
        let mut dirs: Vec<String> = Vec::new();
        let mut files: Vec<String> = Vec::new();
        let mut i: usize = 0;
        assert(text::texts(dirs@) =~= line_names(all.take(0), true));
        assert(text::texts(files@) =~= line_names(all.take(0), false));
        while i < lines.len()
            invariant
                all == text::texts(lines@),
                i <= all.len(),
                forall|i: int|
                    0 <= i < lines@.len() ==> text::words((#[trigger] lines@[i])@).len() >= 9,
                text::texts(dirs@) == line_names(all.take(i as int), true),
                text::texts(files@) == line_names(all.take(i as int), false),
                progress.step == 2,
                progress.to.told() == told.push(2),
                told == old(progress).to.told(),
            decreases all.len() - i,
        {
            assert(all.take(i + 1).drop_last() =~= all.take(i as int));
            assert(all.take(i + 1).last() == lines@[i as int]@);
            let ghost old_dirs = text::texts(dirs@);
            let ghost old_files = text::texts(files@);
            let fields = text::split_whitespace(lines[i].as_str());
            assert(text::texts(fields@).len() == fields@.len());
            assert(text::texts(fields@)[0] == fields@[0]@);
            assert(text::texts(fields@)[8] == fields@[8]@);
            let flags = text::chars_of(fields[0].as_str());
            let name: String = fields[8].clone();
            if flags.len() > 0 && flags[0] == 'd' {
                dirs.push(name);
                assert(text::texts(dirs@) =~= old_dirs.push(name@));
            } else {
                files.push(name);
                assert(text::texts(files@) =~= old_files.push(name@));
            }
            i = i + 1;
        }
        assert(all.take(i as int) =~= all);
        proof {
            lemma_line_names(all, true);
            lemma_line_names(all, false);
            assert((|line: Seq<char>| seq!['d'].is_prefix_of(text::words(line)[0])) =~= (|
                line: Seq<char>,
            | seq!['d'].is_prefix_of(text::words(line)[0]) == true));
            assert((|line: Seq<char>| !seq!['d'].is_prefix_of(text::words(line)[0])) =~= (|
                line: Seq<char>,
            | seq!['d'].is_prefix_of(text::words(line)[0]) == false));
        }
        text::sort_names(&mut files);
        text::sort_names(&mut dirs);
        if let Err(e) = progress.step() {
            assert(progress.to.told() =~= told + progress::steps(2, 1));
            assert(progress::stopped(*old(progress), *progress, 2, 1));
            return Err(e);
        }
        assert(progress.to.told() =~= told + progress::steps(2, 2));
        Ok(FilesDirs::new(files, dirs))
    }
}

/// The lines of directories are those that start with a d.
pub proof fn lines_of_directories_start_with_a_d(line: Seq<char>)
    ensures
        is_dir_line(line) == seq!['d'].is_prefix_of(line),
{
    if line.len() > 0 {
        assert(seq!['d'][0] == 'd');
        if line[0] == 'd' {
            assert(line.take(1) =~= seq!['d']);
        } else {
            assert(line.take(1)[0] == line[0]);
        }
    }
}

proof fn lemma_line_names(lines: Seq<Seq<char>>, dirs: bool)
    ensures
        line_names(lines, dirs) == lines.filter(
            |line: Seq<char>| seq!['d'].is_prefix_of(text::words(line)[0]) == dirs,
        ).map_values(|line: Seq<char>| text::words(line)[8]),
    decreases lines.len(),
{
    let is_kind = |line: Seq<char>| seq!['d'].is_prefix_of(text::words(line)[0]) == dirs;
    let name = |line: Seq<char>| text::words(line)[8];
    reveal(Seq::filter);
    if lines.len() > 0 {
        lemma_line_names(lines.drop_last(), dirs);
        lines_of_directories_start_with_a_d(text::words(lines.last())[0]);
        assert(line_names(lines, dirs) =~= lines.filter(is_kind).map_values(name));
    } else {
        assert(line_names(lines, dirs) =~= lines.filter(is_kind).map_values(name));
    }
}

proof fn lemma_lines_listed(lines: Seq<Seq<char>>)
    ensures
        line_names(lines, true).len() + line_names(lines, false).len() == lines.len(),
        forall|i: int|
            0 <= i < lines.len() ==> line_names(
                lines,
                is_dir_line(text::words(#[trigger] lines[i])[0]),
            ).contains(text::words(lines[i])[8]),
        forall|dirs: bool, name: Seq<char>| #[trigger]
            line_names(lines, dirs).contains(name) ==> exists|i: int|
                0 <= i < lines.len() && is_dir_line(text::words(#[trigger] lines[i])[0]) == dirs
                    && text::words(lines[i])[8] == name,
    decreases lines.len(),
{
    if lines.len() > 0 {
        let fewer = lines.drop_last();
        let last = lines.last();
        lemma_lines_listed(fewer);
        assert forall|i: int| 0 <= i < lines.len() implies line_names(
            lines,
            is_dir_line(text::words(#[trigger] lines[i])[0]),
        ).contains(text::words(lines[i])[8]) by {
            let kind = is_dir_line(text::words(lines[i])[0]);
            let name = text::words(lines[i])[8];
            let all = line_names(lines, kind);
            let before = line_names(fewer, kind);
            if i < fewer.len() {
                assert(fewer[i] == lines[i]);
                let k = choose|k: int| 0 <= k < before.len() && before[k] == name;
                assert(all[k] == name);
            } else {
                assert(all[before.len() as int] == name);
            }
        }
        assert forall|dirs: bool, name: Seq<char>| #[trigger]
            line_names(lines, dirs).contains(name) implies exists|i: int|
            0 <= i < lines.len() && is_dir_line(text::words(#[trigger] lines[i])[0]) == dirs
                && text::words(lines[i])[8] == name by {
            let all = line_names(lines, dirs);
            let before = line_names(fewer, dirs);
            let k = choose|k: int| 0 <= k < all.len() && all[k] == name;
            if k < before.len() {
                assert(before[k] == name);
                assert(before.contains(name));
                let i = choose|i: int|
                    0 <= i < fewer.len() && is_dir_line(text::words(#[trigger] fewer[i])[0])
                        == dirs && text::words(fewer[i])[8] == name;
                assert(lines[i] == fewer[i]);
            } else {
                assert(lines[lines.len() - 1] == last);
            }
        }
    }
}

/// Every line of a listing is listed and nothing else is: its ninth word among the
/// directories where its first word starts with a d, and among the files where it does
/// not, and as many names as lines.
pub proof fn every_line_is_listed(lines: Seq<Seq<char>>, listed: crate::types::FilesDirsView)
    requires
        listed.files.to_multiset() == line_names(lines, false).to_multiset(),
        listed.dirs.to_multiset() == line_names(lines, true).to_multiset(),
    ensures
        listed.files.len() + listed.dirs.len() == lines.len(),
        forall|i: int|
            0 <= i < lines.len() ==> ({
                let words = text::words(#[trigger] lines[i]);
                if words[0].len() > 0 && words[0][0] == 'd' {
                    listed.dirs.contains(words[8])
                } else {
                    listed.files.contains(words[8])
                }
            }),
        forall|name: Seq<char>| #[trigger]
            listed.dirs.contains(name) ==> exists|i: int|
                0 <= i < lines.len() && text::words(#[trigger] lines[i])[8] == name && text::words(
                    lines[i],
                )[0].len() > 0 && text::words(lines[i])[0][0] == 'd',
        forall|name: Seq<char>| #[trigger]
            listed.files.contains(name) ==> exists|i: int|
                0 <= i < lines.len() && text::words(#[trigger] lines[i])[8] == name && !(text::words(
                    lines[i],
                )[0].len() > 0 && text::words(lines[i])[0][0] == 'd'),
        listed.files.to_multiset() == lines.filter(
            |line: Seq<char>| !seq!['d'].is_prefix_of(text::words(line)[0]),
        ).map_values(|line: Seq<char>| text::words(line)[8]).to_multiset(),
        listed.dirs.to_multiset() == lines.filter(
            |line: Seq<char>| seq!['d'].is_prefix_of(text::words(line)[0]),
        ).map_values(|line: Seq<char>| text::words(line)[8]).to_multiset(),
{
    let files = line_names(lines, false);
    let dirs = line_names(lines, true);
    lemma_lines_listed(lines);
    text::lemma_same_names(listed.files, files);
    text::lemma_same_names(listed.dirs, dirs);
    assert forall|i: int| 0 <= i < lines.len() implies ({
        let words = text::words(#[trigger] lines[i]);
        if words[0].len() > 0 && words[0][0] == 'd' {
            listed.dirs.contains(words[8])
        } else {
            listed.files.contains(words[8])
        }
    }) by {
        assert(line_names(lines, is_dir_line(text::words(lines[i])[0])).contains(
            text::words(lines[i])[8],
        ));
    }
    lemma_line_names(lines, true);
    lemma_line_names(lines, false);
    assert((|line: Seq<char>| seq!['d'].is_prefix_of(text::words(line)[0])) =~= (|
        line: Seq<char>,
    | seq!['d'].is_prefix_of(text::words(line)[0]) == true));
    assert((|line: Seq<char>| !seq!['d'].is_prefix_of(text::words(line)[0])) =~= (|
        line: Seq<char>,
    | seq!['d'].is_prefix_of(text::words(line)[0]) == false));
}

/// A url of a server is read from its start: what stands between the scheme and the next
/// slash is the server, and where there is no scheme, what stands before the first slash.
pub proof fn a_url_names_its_server(server: Seq<char>, behind: Seq<char>)
    requires
        !server.contains('/'),
    ensures
        ({
            let scheme = seq!['f', 't', 'p', ':', '/'];
            let address = if server.contains(':') {
                server
            } else {
                server + seq![':', '2', '1']
            };
            &&& server_name(scheme + server) == server
            &&& server_name(scheme + server + seq!['/'] + behind) == server
            &&& server_address(scheme + server) == address
            &&& server_address(scheme + server + seq!['/'] + behind) == address
            &&& server_name(server) == server
            &&& server_address(server) == address
            &&& server != seq!['f', 't', 'p', ':'] ==> {
                &&& server_name(server + seq!['/'] + behind) == server
                &&& server_address(server + seq!['/'] + behind) == address
            }
        }),
{
    let scheme = seq!['f', 't', 'p', ':', '/'];
    assert(scheme == ftp_url());
    lemma_server_name(server, seq![]);
    lemma_server_name(server, seq!['/'] + behind);
    assert(scheme + server + (seq!['/'] + behind) =~= scheme + server + seq!['/'] + behind);
    assert(server + (seq!['/'] + behind) =~= server + seq!['/'] + behind);
    assert(scheme + server + seq![] =~= scheme + server);
    assert(server + seq![] =~= server);
}

proof fn lemma_server_name(server: Seq<char>, rest: Seq<char>)
    requires
        !server.contains('/'),
        rest.len() > 0 ==> rest[0] == '/',
    ensures
        server_name(ftp_url() + server + rest) == server,
        rest.len() == 0 || server != seq!['f', 't', 'p', ':'] ==> server_name(server + rest)
            == server,
{
    let tail = server + rest;
    let url = ftp_url() + server + rest;
    assert(ftp_url().is_prefix_of(url)) by {
        assert(url.take(5) =~= ftp_url());
    }
    assert(url.skip(5) =~= tail);
    let at = server.len() as int;
    assert forall|i: int| 0 <= i < at implies tail[i] != '/' by {
        assert(server.contains(server[i]));
    }
    text::lemma_first_at_is(tail, '/', at);
    assert(tail.take(at) =~= server);
    if ftp_url().is_prefix_of(tail) && (rest.len() == 0 || server != seq!['f', 't', 'p', ':']) {
        assert(tail.take(5) =~= ftp_url());
        assert(ftp_url()[4] == '/');
        assert(tail.take(5)[0] == tail[0] && tail.take(5)[1] == tail[1] && tail.take(5)[2]
            == tail[2] && tail.take(5)[3] == tail[3] && tail.take(5)[4] == tail[4]);
        if at < 4 {
            assert(tail[at] == rest[0]);
        } else if at > 4 {
            assert(tail[4] != '/');
        }
        assert(rest.len() > 0);
        assert(server =~= seq!['f', 't', 'p', ':']);
    }
}

/// The urls of servers are those that start with the scheme or with the usual start of
/// the names of servers, and a driver is made for those that lead no further.
pub proof fn urls_of_servers_start_with_ftp(url: Seq<char>, behind: Seq<char>)
    ensures
        is_ftp(seq!['f', 't', 'p', ':', '/'] + behind),
        is_ftp(seq!['f', 't', 'p', '.'] + behind),
        is_ftp(url) ==> url.len() >= 4 && url[0] == 'f' && url[1] == 't' && url[2] == 'p' && (url[3]
            == '.' || (url[3] == ':' && url.len() >= 5 && url[4] == '/')),
        without_scheme(seq!['f', 't', 'p', ':', '/'] + behind) == behind,
        !(url.len() >= 5 && url[3] == ':' && url[4] == '/') ==> without_scheme(url) == url,
{
    let one = seq!['f', 't', 'p', ':', '/'] + behind;
    let other = seq!['f', 't', 'p', '.'] + behind;
    assert(one.take(5) =~= ftp_url());
    assert(other.take(4) =~= ftp_host());
    assert(one.skip(5) =~= behind);
    if ftp_url().is_prefix_of(url) {
        assert(url.take(5) =~= ftp_url());
        assert(forall|i: int| 0 <= i < 5 ==> url.take(5)[i] == #[trigger] url[i]);
    }
    if ftp_host().is_prefix_of(url) {
        assert(url.take(4) =~= ftp_host());
        assert(forall|i: int| 0 <= i < 4 ==> url.take(4)[i] == #[trigger] url[i]);
    }
}

} // verus!
