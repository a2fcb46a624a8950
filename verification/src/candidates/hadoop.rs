//! Hadoop: versions from the Apache archive's directory listing.
use vstd::prelude::*;
use crate::candidates::{CandidateSource, MirrorMap, mirror_view};
use crate::candidates::apache::{apache_mirrors, apache_mirror_pairs};
use crate::sorted_map::pairs_to_map;
use crate::text::owned;

verus! {

/// The Hadoop directory of the Apache archive.
pub const HADOOP_DIST: &'static str = "https://archive.apache.org/dist/hadoop/common";

/// Where Hadoop lives under an Apache mirror.
pub const HADOOP_PATH_PREFIX: &'static str = "/hadoop/common";

/// The prefix of the Hadoop version directories.
pub const HADOOP_DIR_PREFIX: &'static str = "hadoop-";

/// Hadoop.
pub struct Hadoop;

impl CandidateSource for Hadoop {
    fn dir_name(&self) -> (r: &'static str)
        ensures
            r@ == "hadoop"@,
    {
        "hadoop"
    }

    fn display(&self) -> (r: &'static str)
        ensures
            r@ == "Hadoop"@,
    {
        "Hadoop"
    }

    fn mirrors(&self) -> (r: MirrorMap)
        ensures
            mirror_view(r) == pairs_to_map(apache_mirror_pairs("/hadoop/common"@)),
    {
        apache_mirrors(HADOOP_PATH_PREFIX)
    }

    fn minimum_versions(&self) -> (r: usize)
        ensures
            r == 100,
    {
        100
    }
}

/// The download path of a Hadoop version.
pub open spec fn hadoop_path(version: Seq<char>) -> Seq<char> {
    "/hadoop-"@ + version + "/hadoop-"@ + version + ".tar.gz"@
}

/// The download path of a Hadoop version.
pub fn hadoop_release_path(version: &str) -> (r: String)
    ensures
        r@ == hadoop_path(version@),
{
    let mut p = owned("/hadoop-");
    p.append(version);
    p.append("/hadoop-");
    p.append(version);
    p.append(".tar.gz");
    p
}

} // verus!
