//! What drivers answer and what a load reports.
use crate::text;
use vstd::prelude::*;

verus! {

/// The names of the files and of the directories in a directory.
#[derive(Debug)]
pub struct FilesDirs {
    pub files: Vec<String>,
    pub dirs: Vec<String>,
}

/// What [`FilesDirs`] stands for.
#[verifier::ext_equal]
pub struct FilesDirsView {
    pub files: Seq<Seq<char>>,
    pub dirs: Seq<Seq<char>>,
}

impl View for FilesDirs {
    type V = FilesDirsView;

    open spec fn view(&self) -> FilesDirsView {
        FilesDirsView { files: text::texts(self.files@), dirs: text::texts(self.dirs@) }
    }
}

impl FilesDirs {
    pub fn new(files: Vec<String>, dirs: Vec<String>) -> (files_dirs: FilesDirs)
        ensures
            files_dirs.files == files,
            files_dirs.dirs == dirs,
    {
        FilesDirs { files, dirs }
    }
}

impl Default for FilesDirs {
    fn default() -> (files_dirs: FilesDirs)
        ensures
            files_dirs@ == (FilesDirsView { files: seq![], dirs: seq![] }),
    {
        FilesDirs { files: Vec::new(), dirs: Vec::new() }
    }
}

/// The error of the operating system's file functions.
#[verifier::external_type_specification]
#[verifier::external_body]
pub struct ExIoError(std::io::Error);

/// What a driver found at a path.
#[derive(Debug)]
pub enum LoadStatus {
    /// The data of the file there.
    Data(Box<[u8]>),
    /// A directory.
    Directory,
    /// Nothing.
    NotFound,
}

/// What a [`LoadStatus`] stands for.
pub enum LoadStatusView {
    Data(Seq<u8>),
    Directory,
    NotFound,
}

impl View for LoadStatus {
    type V = LoadStatusView;

    open spec fn view(&self) -> LoadStatusView {
        match self {
            LoadStatus::Data(data) => LoadStatusView::Data(data@),
            LoadStatus::Directory => LoadStatusView::Directory,
            LoadStatus::NotFound => LoadStatusView::NotFound,
        }
    }
}

/// `Vec::into_boxed_slice`, which is documented to keep the elements.
#[verifier::external_body]
pub(crate) fn into_boxed_slice(data: Vec<u8>) -> (boxed: Box<[u8]>)
    ensures
        boxed@ == data@,
{
    data.into_boxed_slice()
}

/// Why a load was given up.
#[derive(Debug)]
pub enum InternalError {
    /// There is no such file or directory.
    FileDirNotFound,
    /// A file could not be read.
    FileError(std::io::Error),
    /// Nobody is left to take the messages.
    SendError,
    /// A directory could not be walked.
    WalkdirError,
    /// A server's answer does not have the form that was expected.
    ParseError,
}

/// The errors that whoever asked for a load is told of.
#[derive(Debug)]
pub enum VfsError {
    /// A file could not be read.
    FileError(std::io::Error),
}

/// The messages that a load ends in. Its progress, which is told of before, is a
/// share of the whole and not among them.
#[derive(Debug)]
pub enum RecvMsg {
    /// The data that was asked for.
    ReadDone(Box<[u8]>),
    /// Reading failed.
    Error(VfsError),
    /// The url is a directory, with this in it.
    Directory(FilesDirs),
    /// There is nothing at the url.
    NotFound,
}

/// What a [`RecvMsg`] stands for.
pub enum RecvMsgView {
    ReadDone(Seq<u8>),
    Error,
    Directory(FilesDirsView),
    NotFound,
}

impl View for RecvMsg {
    type V = RecvMsgView;

    open spec fn view(&self) -> RecvMsgView {
        match self {
            RecvMsg::ReadDone(data) => RecvMsgView::ReadDone(data@),
            RecvMsg::Error(_) => RecvMsgView::Error,
            RecvMsg::Directory(files_dirs) => RecvMsgView::Directory(files_dirs@),
            RecvMsg::NotFound => RecvMsgView::NotFound,
        }
    }
}

/// The message that there is, if any.
pub open spec fn reply_view(msg: Option<RecvMsg>) -> Option<RecvMsgView> {
    match msg {
        Some(msg) => Some(msg@),
        None => None,
    }
}

/// The listing that there is, if any.
pub open spec fn listed_view(listed: Option<FilesDirs>) -> FilesDirsView {
    match listed {
        Some(files_dirs) => files_dirs@,
        None => FilesDirsView { files: seq![], dirs: seq![] },
    }
}

/// How a file system is reached.
#[derive(Debug)]
pub enum VfsType {
    /// Over the network.
    Remote,
    /// As a stream.
    Streaming,
}

/// What a driver answered, where a file or directory that it could not find is an
/// answer too: the next part of the path is tried then.
pub fn found_or_not(result: Result<LoadStatus, InternalError>) -> (found: Result<
    LoadStatus,
    InternalError,
>)
    ensures
        found == match result {
            Err(InternalError::FileDirNotFound) => Ok(LoadStatus::NotFound),
            _ => result,
        },
{
    match result {
        Err(InternalError::FileDirNotFound) => Ok(LoadStatus::NotFound),
        _ => result,
    }
}

/// The message that reports an error: only one from reading a file is reported.
pub fn handle_error(e: InternalError) -> (msg: Option<RecvMsg>)
    ensures
        match e {
            InternalError::FileError(error) => msg == Some(
                RecvMsg::Error(VfsError::FileError(error)),
            ),
            _ => msg is None,
        },
{
    match e {
        InternalError::FileError(error) => Some(RecvMsg::Error(VfsError::FileError(error))),
        _ => None,
    }
}

/// A listing is seen with every name, each whole and in its place.
pub proof fn a_listing_is_seen_with_every_name(files_dirs: FilesDirs)
    ensures
        files_dirs@.files.len() == files_dirs.files@.len(),
        files_dirs@.dirs.len() == files_dirs.dirs@.len(),
        forall|i: int|
            0 <= i < files_dirs.files@.len() ==> #[trigger] files_dirs@.files[i]
                == files_dirs.files@[i]@,
        forall|i: int|
            0 <= i < files_dirs.dirs@.len() ==> #[trigger] files_dirs@.dirs[i]
                == files_dirs.dirs@[i]@,
{
}

} // verus!
