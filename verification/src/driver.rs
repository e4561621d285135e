//! The drivers that there are, and how they are tried.
use crate::local_fs::LocalFs;
use crate::zip_fs::ZipFs;
use vstd::prelude::*;

verus! {

/// A driver that knows no place yet.
#[derive(Debug)]
pub enum Driver {
    /// The one for zip archives.
    Zip(ZipFs),
    /// The one for files on disk.
    Local(LocalFs),
}

/// The drivers that are tried, in this order: archives come before plain files.
pub fn known_drivers() -> (drivers: Vec<Driver>)
    ensures
        drivers@.len() == 2,
        drivers@[0] matches Driver::Zip(fs) && fs.bytes() is None,
        drivers@[1] matches Driver::Local(fs) && fs.root@ == Seq::<char>::empty(),
{
    let mut drivers: Vec<Driver> = Vec::new();
    drivers.push(Driver::Zip(ZipFs::new()));
    drivers.push(Driver::Local(LocalFs::new()));
    drivers
}

/// What is asked next of a driver that is tried on a url or on data.
#[derive(PartialEq, Eq, Structural, Debug, Clone, Copy)]
pub enum Question {
    /// Whether it supports the url.
    Supports,
    /// Whether it can be mounted from the url, or from the data.
    CanLoad,
    /// For the driver to mount.
    Create,
    /// Nothing: it is passed over.
    Skip,
}

impl Question {
    /// What is asked first of a url.
    pub fn of_url() -> (question: Question)
        ensures
            question == Question::Supports,
    {
        Question::Supports
    }

    /// What is asked first of data.
    pub fn of_data() -> (question: Question)
        ensures
            question == Question::CanLoad,
    {
        Question::CanLoad
    }

    /// What is asked after an answer: a driver is made only where every answer is yes.
    pub fn answered(self, yes: bool) -> (next: Question)
        ensures
            next == match self {
                Question::Supports => if yes {
                    Question::CanLoad
                } else {
                    Question::Skip
                },
                Question::CanLoad => if yes {
                    Question::Create
                } else {
                    Question::Skip
                },
                Question::Create => self,
                Question::Skip => self,
            },
    {
        match self {
            Question::Supports => {
                if yes {
                    Question::CanLoad
                } else {
                    Question::Skip
                }
            },
            Question::CanLoad => {
                if yes {
                    Question::Create
                } else {
                    Question::Skip
                }
            },
            Question::Create => self,
            Question::Skip => self,
        }
    }
}

} // verus!
