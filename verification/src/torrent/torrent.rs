//! A torrent as its metadata file describes it.

use crate::bencoding::bencode::{number_at, removed, string_at, Bencode};
use crate::bencoding::decimal::int_digits;
use crate::bencoding::text::ascii_text;
use crate::bencoding::value::Value;
use crate::torrent::error::Error;
use crate::torrent::torrent_info::{
    info_hash_text, info_of, info_text, number_string, TorrentInfo, TorrentInfoView,
};
use vstd::prelude::*;

verus! {

/// The metadata of a torrent.
#[derive(Eq, PartialEq, Clone, Debug)]
pub struct Torrent {
    pub announce: String,
    pub created_by: String,
    pub creation_date: i64,
    pub encoding: String,
    pub info: TorrentInfo,
}

/// What a `Torrent` holds.
pub struct TorrentView {
    pub announce: Seq<char>,
    pub created_by: Seq<char>,
    pub creation_date: i64,
    pub encoding: Seq<char>,
    pub info: TorrentInfoView,
}

impl View for Torrent {
    type V = TorrentView;

    open spec fn view(&self) -> TorrentView {
        TorrentView {
            announce: self.announce@,
            created_by: self.created_by@,
            creation_date: self.creation_date,
            encoding: self.encoding@,
            info: self.info@,
        }
    }
}

/// The torrent that the dictionary `v` describes, or the message of the
/// first field that cannot be read: `announce`, `created by`, `encoding`,
/// `creation date` and `info`, in this order.
pub open spec fn torrent_of(v: Value) -> Result<TorrentView, Seq<char>> {
    match string_at(v, "announce"@) {
        Err(message) => Err(message),
        Ok(announce) => match string_at(v, "created by"@) {
            Err(message) => Err(message),
            Ok(created_by) => match string_at(v, "encoding"@) {
                Err(message) => Err(message),
                Ok(encoding) => match number_at(v, "creation date"@) {
                    Err(message) => Err(message),
                    Ok(creation_date) => match removed(v, "info"@) {
                        Err(message) => Err(message),
                        Ok(inner) => match info_of(inner) {
                            Err(message) => Err(message),
                            Ok(info) => Ok(
                                TorrentView {
                                    announce,
                                    created_by,
                                    creation_date,
                                    encoding,
                                    info,
                                },
                            ),
                        },
                    },
                },
            },
        },
    }
}

/// The URL at which the tracker is asked: the announce address, then the
/// identifier of the torrent as the query `info_hash`.
pub open spec fn announce_url_text(torrent: TorrentView) -> Seq<char> {
    torrent.announce + "?info_hash="@ + info_hash_text(torrent.info)
}

/// How the torrent is shown.
pub open spec fn torrent_text(torrent: TorrentView) -> Seq<char> {
    "Torrent: { "@ + "announce: \""@ + torrent.announce + "\", "@ + "created_by: \""@
        + torrent.created_by + "\", "@ + "creation_date: "@ + ascii_text(
        int_digits(torrent.creation_date as int),
    ) + ", "@ + "encoding: \""@ + torrent.encoding + "\", "@ + "info: "@ + info_text(torrent.info)
        + " "@ + "}"@
}

impl Torrent {
    /// Reads the torrent out of the dictionary of a metadata file.
    pub fn from(input: Bencode) -> (r: Result<Self, Error>)
        ensures
            match r {
                Ok(torrent) => torrent_of(input@) == Ok::<TorrentView, Seq<char>>(torrent@),
                Err(e) => torrent_of(input@) == Err::<TorrentView, Seq<char>>(e@),
            },
    {
        let announce = match input.get_string("announce") {
            Ok(announce) => announce,
            Err(e) => return Err(Error::from(e)),
        };
        let created_by = match input.get_string("created by") {
            Ok(created_by) => created_by,
            Err(e) => return Err(Error::from(e)),
        };
        let encoding = match input.get_string("encoding") {
            Ok(encoding) => encoding,
            Err(e) => return Err(Error::from(e)),
        };
        let creation_date = match input.get_number("creation date") {
            Ok(creation_date) => creation_date,
            Err(e) => return Err(Error::from(e)),
        };
        let inner = match input.remove("info") {
            Ok(inner) => inner,
            Err(e) => return Err(Error::from(e)),
        };
        let info = match TorrentInfo::from(inner) {
            Ok(info) => info,
            Err(e) => return Err(e),
        };
        Ok(Self { announce, created_by, creation_date, encoding, info })
    }

    /// The URL at which the tracker is asked about this torrent.
    pub fn announce_url(&self) -> (r: Result<String, Error>)
        ensures
            r matches Ok(url) && url@ == announce_url_text(self@),
    {
        let mut announce = self.announce.clone();
        announce.append("?info_hash=");
        announce.append(self.info.sha1().as_str());
        Ok(announce)
    }

    /// Shows the torrent.
    pub fn to_string(&self) -> (shown: String)
        ensures
            shown@ == torrent_text(self@),
    {
        format(self)
    }
}

/// Shows the torrent: its fields by name, then the info dictionary.
pub fn format(v: &Torrent) -> (shown: String)
    ensures
        shown@ == torrent_text(v@),
{
    let mut shown = String::from_str("Torrent: { ");
    shown.append("announce: \"");
    shown.append(v.announce.as_str());
    shown.append("\", ");
    shown.append("created_by: \"");
    shown.append(v.created_by.as_str());
    shown.append("\", ");
    shown.append("creation_date: ");
    shown.append(number_string(v.creation_date).as_str());
    shown.append(", ");
    shown.append("encoding: \"");
    shown.append(v.encoding.as_str());
    shown.append("\", ");
    shown.append("info: ");
    shown.append(v.info.to_string().as_str());
    shown.append(" ");
    shown.append("}");
    shown
}

} // verus!
