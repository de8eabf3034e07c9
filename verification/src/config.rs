use vstd::prelude::*;

verus! {

/// Where the snapshot file lives: the directory and the file name, both kept
/// as raw bytes, exactly as the configuration commands carry them.
pub struct Config {
    pub dir: Vec<u8>,
    pub dbfilename: Vec<u8>,
}

impl Default for Config {
    /// The working directory and the customary dump file name.
    fn default() -> (r: Config)
        ensures
            r.dir@ == seq![46u8],
            r.dbfilename@ == seq![100u8, 117u8, 109u8, 112u8, 46u8, 114u8, 100u8, 98u8],
    {
        let mut dir: Vec<u8> = Vec::new();
        dir.push(46);
        let mut name: Vec<u8> = Vec::new();
        name.push(100);
        name.push(117);
        name.push(109);
        name.push(112);
        name.push(46);
        name.push(114);
        name.push(100);
        name.push(98);
        proof {
            assert(dir@ =~= seq![46u8]);
            assert(name@ =~= seq![100u8, 117u8, 109u8, 112u8, 46u8, 114u8, 100u8, 98u8]);
        }
        Config { dir, dbfilename: name }
    }
}

/// A copy of the configuration, field for field.
pub fn get_config(c: &Config) -> (r: Config)
    ensures
        r.dir@ == c.dir@,
        r.dbfilename@ == c.dbfilename@,
{
    let mut dir: Vec<u8> = Vec::new();
    crate::frame::push_bytes(&mut dir, c.dir.as_slice());
    let mut name: Vec<u8> = Vec::new();
    crate::frame::push_bytes(&mut name, c.dbfilename.as_slice());
    proof {
        assert(dir@ =~= c.dir@);
        assert(name@ =~= c.dbfilename@);
    }
    Config { dir, dbfilename: name }
}

/// Points the configuration at another directory.
pub fn set_dir(c: &mut Config, path: Vec<u8>)
    ensures
        final(c).dir@ == path@,
        final(c).dbfilename@ == old(c).dbfilename@,
{
    c.dir = path;
}

/// Points the configuration at another snapshot file name.
pub fn set_dbfilename(c: &mut Config, filename: Vec<u8>)
    ensures
        final(c).dbfilename@ == filename@,
        final(c).dir@ == old(c).dir@,
{
    c.dbfilename = filename;
}

} // verus!
