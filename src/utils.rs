//! Paths inside a game installation.
use vstd::prelude::*;
use vstd::string::StringExecFns;

verus! {

/// A game installation: its directory, and the archives that a terrain patch
/// reads and writes there.
pub struct Dota {
    pub dota_path: String,
    pub base_path: Option<String>,
    pub target_path: Option<String>,
    pub out_path: Option<String>,
}

pub open spec fn base_path_of(dota: Seq<char>) -> Seq<char> {
    dota + "/dota/maps/dota.vpk"@
}

pub open spec fn out_path_of(dota: Seq<char>) -> Seq<char> {
    dota + "/dota_tempcontent/maps/dota.vpk"@
}

pub open spec fn target_path_of(dota: Seq<char>, target: Seq<char>) -> Seq<char> {
    dota + "/dota/maps/"@ + target
}

/// The base terrain archive of the installation at `dota_path`.
pub fn get_base_path(dota_path: &String) -> (r: String)
    ensures
        r@ == base_path_of(dota_path@),
{
    dota_path.clone().concat("/dota/maps/dota.vpk")
}

/// Where the patched archive goes, under the installation at `dota_path`.
pub fn get_out_path(dota_path: &String) -> (r: String)
    ensures
        r@ == out_path_of(dota_path@),
{
    dota_path.clone().concat("/dota_tempcontent/maps/dota.vpk")
}

/// The terrain archive named `target` of the installation at `dota_path`.
pub fn get_target_path(dota_path: &String, target: &str) -> (r: String)
    ensures
        r@ == target_path_of(dota_path@, target@),
{
    dota_path.clone().concat("/dota/maps/").concat(target)
}

impl Dota {
    /// The installation at `dota_path`, with no archive paths yet.
    pub fn new(dota_path: String) -> (r: Dota)
        ensures
            r.dota_path@ == dota_path@,
            r.base_path is None,
            r.target_path is None,
            r.out_path is None,
    {
        Dota { dota_path, base_path: None, target_path: None, out_path: None }
    }

    /// Sets the paths of the base archive, of the terrain archive `target`,
    /// and of the output.
    pub fn build_paths(&mut self, target: &str)
        ensures
            final(self).dota_path == old(self).dota_path,
            final(self).base_path matches Some(p) && p@ == base_path_of(old(self).dota_path@),
            final(self).target_path matches Some(p) && p@ == target_path_of(old(self).dota_path@, target@),
            final(self).out_path matches Some(p) && p@ == out_path_of(old(self).dota_path@),
    {
        let base_path = get_base_path(&self.dota_path);
        let target_path = get_target_path(&self.dota_path, target);
        let out_path = get_out_path(&self.dota_path);
        self.base_path = Some(base_path);
        self.target_path = Some(target_path);
        self.out_path = Some(out_path);
    }
}

} // verus!
