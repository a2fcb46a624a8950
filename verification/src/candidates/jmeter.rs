//! JMeter: versions from Maven Central metadata, files from the Apache archive.
use vstd::prelude::*;
use crate::candidates::{CandidateSource, MirrorMap, mirror_view};
use crate::candidates::apache::{apache_mirrors, apache_mirror_pairs};
use crate::sorted_map::pairs_to_map;
use crate::text::owned;

verus! {

/// The Maven Central metadata of JMeter.
pub const JMETER_METADATA: &'static str =
    "https://repo.maven.apache.org/maven2/org/apache/jmeter/ApacheJMeter/maven-metadata.xml";

/// Where JMeter lives under an Apache mirror.
pub const JMETER_PATH_PREFIX: &'static str = "/jmeter/binaries";

/// JMeter.
pub struct Jmeter;

impl CandidateSource for Jmeter {
    fn dir_name(&self) -> (r: &'static str)
        ensures
            r@ == "jmeter"@,
    {
        "jmeter"
    }

    fn display(&self) -> (r: &'static str)
        ensures
            r@ == "JMeter"@,
    {
        "JMeter"
    }

    fn mirrors(&self) -> (r: MirrorMap)
        ensures
            mirror_view(r) == pairs_to_map(apache_mirror_pairs("/jmeter/binaries"@)),
    {
        apache_mirrors(JMETER_PATH_PREFIX)
    }

    fn minimum_versions(&self) -> (r: usize)
        ensures
            r == 20,
    {
        20
    }
}

/// The download path of a JMeter version.
pub open spec fn jmeter_path(version: Seq<char>) -> Seq<char> {
    "/apache-jmeter-"@ + version + ".tgz"@
}

/// The download path of a JMeter version.
pub fn jmeter_release_path(version: &str) -> (r: String)
    ensures
        r@ == jmeter_path(version@),
{
    let mut p = owned("/apache-jmeter-");
    p.append(version);
    p.append(".tgz");
    p
}

} // verus!
