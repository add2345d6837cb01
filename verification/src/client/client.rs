//! A client for one torrent: the URL it asks the tracker at, and the
//! response it reads from what the tracker sent.

use crate::bencoding::decoder::{decode, decode_value};
use crate::client::error::Error;
use crate::torrent::torrent::{announce_url_text, Torrent, TorrentView};
use crate::torrent::tracker_info::{tracker_info_of, TrackerInfo, TrackerInfoView};
use vstd::prelude::*;

verus! {

/// A client for one torrent.
#[derive(Eq, PartialEq, Clone, Debug)]
pub struct Client {
    torrent: Torrent,
    tracker_info: Option<TrackerInfo>,
}

impl Client {
    /// The torrent that the client serves.
    pub closed spec fn torrent_view(&self) -> TorrentView {
        self.torrent@
    }

    /// Whether the client holds a response of the tracker.
    pub closed spec fn has_tracker_info(&self) -> bool {
        self.tracker_info is Some
    }

    /// A client for `torrent` that has not heard from the tracker.
    pub fn new(torrent: Torrent) -> (client: Self)
        ensures
            client.torrent_view() == torrent@,
            !client.has_tracker_info(),
    {
        Self { torrent: torrent, tracker_info: None }
    }

    /// The URL at which the tracker is asked.
    pub fn request_url(&self) -> (r: Result<String, Error>)
        ensures
            r matches Ok(url) && url@ == announce_url_text(self.torrent_view()),
    {
        match self.torrent.announce_url() {
            Ok(url) => Ok(url),
            Err(e) => Err(Error::from(e)),
        }
    }

    /// Reads the response of the tracker out of the bytes that it sent: the
    /// bytes are decoded leniently and the response is read out of the
    /// dictionary that they hold.
    pub fn read_response(&self, body: &[u8]) -> (r: Result<TrackerInfo, Error>)
        ensures
            match r {
                Ok(info) => tracker_info_of(decode_value(body@)) == Ok::<
                    TrackerInfoView,
                    Seq<char>,
                >(info@),
                Err(e) => tracker_info_of(decode_value(body@)) == Err::<
                    TrackerInfoView,
                    Seq<char>,
                >(e@),
            },
    {
        let response_data = decode(body);
        match TrackerInfo::from(response_data) {
            Ok(info) => Ok(info),
            Err(message) => Err(Error::new(message)),
        }
    }

    /// Shows the client by the name of its torrent.
    pub fn to_string(&self) -> (shown: String)
        ensures
            shown@ == "Client { torrent: \""@ + self.torrent_view().info.name + "\" }"@,
    {
        let mut shown = String::from_str("Client { torrent: \"");
        shown.append(self.torrent.info.name.as_str());
        shown.append("\" }");
        shown
    }
}

} // verus!
