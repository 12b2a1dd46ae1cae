//! Transfer accounting: bytes uploaded and downloaded, and bytes left to
//! fetch.  One owner applies updates; the rest of the system reads snapshots.
use vstd::prelude::*;

verus! {

/// The three transfer counters a tracker announce reports.
#[derive(Debug, Clone, Copy, PartialEq, Eq, Structural)]
pub struct Stats {
    pub uploaded: u32,
    pub downloaded: u32,
    pub left: u32,
}

/// One update to a transfer counter.
#[derive(Debug, Clone, Copy, PartialEq, Eq, Structural)]
pub enum UpdateStat {
    Uploaded(u32),
    Downloaded(u32),
    Left(u32),
}

/// A request for a snapshot of the counters.
#[derive(Debug, Clone, Copy, PartialEq, Eq, Structural)]
pub struct GetStats;

impl Stats {
    /// Fresh counters, all zero.
    pub fn new() -> (r: Stats)
        ensures
            r.uploaded == 0,
            r.downloaded == 0,
            r.left == 0,
    {
        Stats { uploaded: 0, downloaded: 0, left: 0 }
    }

    /// Add one update to the counter it names.
    pub fn update(&mut self, msg: UpdateStat)
        requires
            (match msg {
                UpdateStat::Uploaded(u) => old(self).uploaded + u <= u32::MAX,
                UpdateStat::Downloaded(d) => old(self).downloaded + d <= u32::MAX,
                UpdateStat::Left(l) => old(self).left + l <= u32::MAX,
            }),
        ensures
            (match msg {
                UpdateStat::Uploaded(u) => *final(self) == Stats {
                    uploaded: (old(self).uploaded + u) as u32,
                    ..*old(self)
                },
                UpdateStat::Downloaded(d) => *final(self) == Stats {
                    downloaded: (old(self).downloaded + d) as u32,
                    ..*old(self)
                },
                UpdateStat::Left(l) => *final(self) == Stats {
                    left: (old(self).left + l) as u32,
                    ..*old(self)
                },
            }),
    {
        match msg {
            UpdateStat::Uploaded(u) => {
                self.uploaded = self.uploaded + u;
            },
            UpdateStat::Downloaded(d) => {
                self.downloaded = self.downloaded + d;
            },
            UpdateStat::Left(l) => {
                self.left = self.left + l;
            },
        }
    }

    /// A snapshot of the counters, as answered to `GetStats`.
    pub fn get(&self, _msg: GetStats) -> (r: Stats)
        ensures
            r == *self,
    {
        Stats { uploaded: self.uploaded, downloaded: self.downloaded, left: self.left }
    }
}

} // verus!
