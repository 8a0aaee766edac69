//! What the store writes for a submission: the day's file and the frame to
//! append to it, and the password check that admits a submission.

use vstd::prelude::*;
use crate::framer::{Timestamp, frame, frame_text};
use crate::index::{SHARD_SUFFIX, shard_file_name};
use crate::text::{split_lines, split_text_lines, views};

verus! {

/// One append to the store: the frame, and the name of the file of the day
/// it goes to. The whole frame is written at once, under the store's lock.
pub struct Append {
    pub file_name: String,
    pub frame: String,
}

/// The append that records `body` under `date`, stamped `now`.
pub fn prepare_append(date: &str, body: &Vec<String>, now: &Timestamp) -> (r: Append)
    ensures
        r.file_name@ == date@ + SHARD_SUFFIX@,
        r.frame@ == frame_text(now.stamp_text(), views(body@)),
{
    Append { file_name: shard_file_name(date), frame: frame(now, body) }
}

/// The append that records the text `msg`, one body line per line of it,
/// under the date of `now`.
pub fn prepare_message(msg: &str, now: &Timestamp) -> (r: Append)
    ensures
        r.file_name@ == now.date_text() + SHARD_SUFFIX@,
        r.frame@ == frame_text(now.stamp_text(), split_lines(msg@)),
{
    let body = split_text_lines(msg);
    let date = now.date_string();
    prepare_append(date.as_str(), &body, now)
}

/// Why a submission was turned away.
#[derive(Debug, PartialEq, Eq)]
pub enum SendError {
    /// The password given is not the service's.
    Unauthenticated,
}

/// The service that takes submissions: each carries a password, and only
/// those with the service's password are written.
pub struct CommService {
    pwd: String,
}

impl CommService {
    /// The password that admits a submission.
    pub closed spec fn password(&self) -> Seq<char> {
        self.pwd@
    }

    pub fn new(pwd: String) -> (r: CommService)
        ensures
            r.password() == pwd@,
    {
        CommService { pwd }
    }

    /// True iff `auth` is the service's password.
    pub fn authenticates(&self, auth: &str) -> (r: bool)
        ensures
            r == (auth@ == self.password()),
    {
        let given = String::from_str(auth);
        given == self.pwd
    }

    /// What to write for the submission `msg` that came with the password
    /// `auth`, at `now`: the frame of its lines, for the file of the date
    /// of `now`; or `Unauthenticated` where `auth` is not the password.
    pub fn send_msg(&self, auth: &str, msg: &str, now: &Timestamp) -> (r: Result<Append, SendError>)
        ensures
            r is Err <==> auth@ != self.password(),
            r matches Err(e) ==> e == SendError::Unauthenticated,
            r matches Ok(a) ==> a.file_name@ == now.date_text() + SHARD_SUFFIX@ && a.frame@
                == frame_text(now.stamp_text(), split_lines(msg@)),
    {
        if !self.authenticates(auth) {
            return Err(SendError::Unauthenticated);
        }
        Ok(prepare_message(msg, now))
    }
}

} // verus!
