//! The library's unified error type.

use vstd::prelude::*;

verus! {

/// Everything that can go wrong in the pipeline: a transport failure, a
/// missing user on the statistics site, or an unparseable statistics page.
#[derive(Debug, Clone)]
pub enum Error {
    /// A network request failed; carries the transport layer's message.
    Request(String),
    /// The statistics site reports no such user.
    PttWebUserNotFound(String),
    /// The statistics document does not have the expected structure.
    PttWebParse(String),
}

impl Error {
    /// A human-readable message, phrased as the upstream site's language
    /// expects.
    pub fn message(&self) -> (r: String)
        ensures
            self matches Error::Request(m) ==> r@ == "網路請求失敗: "@ + m@,
            self matches Error::PttWebUserNotFound(u) ==> r@ == "在 pttweb.cc 找不到使用者: "@
                + u@,
            self matches Error::PttWebParse(m) ==> r@ == "解析 pttweb.cc HTML 失敗: "@ + m@,
    {
        match self {
            Error::Request(m) => {
                let mut s = String::from_str("網路請求失敗: ");
                s.append(m.as_str());
                s
            },
            Error::PttWebUserNotFound(u) => {
                let mut s = String::from_str("在 pttweb.cc 找不到使用者: ");
                s.append(u.as_str());
                s
            },
            Error::PttWebParse(m) => {
                let mut s = String::from_str("解析 pttweb.cc HTML 失敗: ");
                s.append(m.as_str());
                s
            },
        }
    }
}

} // verus!
