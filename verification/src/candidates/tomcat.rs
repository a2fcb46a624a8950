//! Tomcat: versions from the Apache archive's per-major directory listings.
use vstd::prelude::*;
use crate::candidates::{CandidateSource, MirrorMap, mirror_view, major_part, major_of};
use crate::candidates::apache::{apache_mirrors, apache_mirror_pairs};
use crate::numbers::{parse_u32_spec, parse_u32_range, decimal, u32_to_decimal};
use crate::sorted_map::pairs_to_map;
use crate::text::{chars_of, owned};

verus! {

/// The Tomcat directory of the Apache archive.
pub const TOMCAT_DIST: &'static str = "https://archive.apache.org/dist/tomcat";

/// Where Tomcat lives under an Apache mirror.
pub const TOMCAT_PATH_PREFIX: &'static str = "/tomcat";

/// The prefix of the Tomcat major-version directories.
pub const TOMCAT_MAJOR_PREFIX: &'static str = "tomcat-";

/// The prefix of the Tomcat version directories inside a major directory.
pub const TOMCAT_VERSION_PREFIX: &'static str = "v";

/// Tomcat.
pub struct Tomcat;

impl CandidateSource for Tomcat {
    fn dir_name(&self) -> (r: &'static str)
        ensures
            r@ == "tomcat"@,
    {
        "tomcat"
    }

    fn display(&self) -> (r: &'static str)
        ensures
            r@ == "Tomcat"@,
    {
        "Tomcat"
    }

    fn mirrors(&self) -> (r: MirrorMap)
        ensures
            mirror_view(r) == pairs_to_map(apache_mirror_pairs("/tomcat"@)),
    {
        apache_mirrors(TOMCAT_PATH_PREFIX)
    }

    fn minimum_versions(&self) -> (r: usize)
        ensures
            r == 300,
    {
        300
    }
}

/// The numbers among `names`, in order (`filter_map(|m| m.parse().ok())`).
pub open spec fn parsed_majors(names: Seq<Seq<char>>) -> Seq<u32>
    decreases names.len(),
{
    if names.len() == 0 {
        Seq::empty()
    } else {
        let p = parsed_majors(names.drop_last());
        match parse_u32_spec(names.last()) {
            Some(v) => p.push(v),
            None => p,
        }
    }
}

/// The major versions among the Tomcat major directory names, ascending.
pub fn tomcat_majors(names: &Vec<String>) -> (r: Vec<u32>)
    ensures
        r@.to_multiset() == parsed_majors(names.deep_view()).to_multiset(),
        forall|p: int, q: int| 0 <= p < q < r@.len() ==> r@[p] <= r@[q],
{
    broadcast use vstd::seq_lib::to_multiset_build, vstd::seq_lib::to_multiset_insert;
    let ghost nv = names.deep_view();
    let mut out: Vec<u32> = Vec::new();
    let mut i: usize = 0;
    assert(nv.take(0) =~= Seq::<Seq<char>>::empty());
    while i < names.len()
        invariant
            nv == names.deep_view(),
            i <= nv.len(),
            out@.to_multiset() == parsed_majors(nv.take(i as int)).to_multiset(),
            forall|p: int, q: int| 0 <= p < q < out@.len() ==> out@[p] <= out@[q],
        decreases nv.len() - i,
    {
        let ghost t1 = nv.take(i + 1);
        assert(t1.drop_last() =~= nv.take(i as int));
        assert(t1.last() == names@[i as int]@);
        let c = chars_of(names[i].as_str());
        assert(c@.subrange(0, c@.len() as int) =~= c@);
        match parse_u32_range(&c, 0, c.len()) {
            Some(m) => {
                let mut pos: usize = 0;
                while pos < out.len() && out[pos] <= m
                    invariant
                        pos <= out@.len(),
                        forall|k: int| 0 <= k < pos ==> out@[k] <= m,
                    decreases out@.len() - pos,
                {
                    pos = pos + 1;
                }
                let ghost old_out = out@;
                out.insert(pos, m);
                assert(out@ == old_out.insert(pos as int, m));
                proof {
                    let pm = parsed_majors(nv.take(i as int));
                    assert(parsed_majors(t1) == pm.push(m));
                    vstd::seq_lib::to_multiset_build(pm, m);
                    vstd::seq_lib::to_multiset_insert(old_out, pos as int, m);
                }
                assert forall|p: int, q: int| 0 <= p < q < out@.len() implies out@[p] <= out@[q] by {
                    if q < pos {
                        assert(out@[p] == old_out[p] && out@[q] == old_out[q]);
                    } else if q == pos {
                        assert(out@[p] == old_out[p]);
                    } else if p < pos {
                        assert(out@[p] == old_out[p] && out@[q] == old_out[q - 1]);
                    } else if p == pos {
                        assert(out@[q] == old_out[q - 1]);
                        assert(old_out[pos as int] > m);
                    } else {
                        assert(out@[p] == old_out[p - 1] && out@[q] == old_out[q - 1]);
                    }
                }
            },
            None => {
                assert(parsed_majors(t1) == parsed_majors(nv.take(i as int)));
            },
        }
        i = i + 1;
    }
    assert(nv.take(nv.len() as int) =~= nv);
    out
}

/// The URL of the directory of a Tomcat major version.
pub open spec fn major_dir_url(major: u32) -> Seq<char> {
    "https://archive.apache.org/dist/tomcat"@ + "/tomcat-"@ + decimal(major as nat)
}

/// `format!("{TOMCAT_DIST}/tomcat-{major}")`.
pub fn tomcat_major_url(major: u32) -> (r: String)
    ensures
        r@ == major_dir_url(major),
{
    let mut u = owned(TOMCAT_DIST);
    u.append("/tomcat-");
    let digits = u32_to_decimal(major);
    u.append(digits.as_str());
    u
}

/// The download path of a Tomcat version.
pub open spec fn tomcat_path(version: Seq<char>) -> Seq<char> {
    "/tomcat-"@ + major_part(version) + "/v"@ + version + "/bin/apache-tomcat-"@ + version
        + ".tar.gz"@
}

/// The download path of a Tomcat version.
pub fn tomcat_release_path(version: &str) -> (r: String)
    ensures
        r@ == tomcat_path(version@),
{
    let major = major_of(version);
    let mut p = owned("/tomcat-");
    p.append(major.as_str());
    p.append("/v");
    p.append(version);
    p.append("/bin/apache-tomcat-");
    p.append(version);
    p.append(".tar.gz");
    p
}

} // verus!
