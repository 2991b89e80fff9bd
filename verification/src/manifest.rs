//! The manifests of what is downloaded: the tools, per platform, and the original
//! binaries.
use indexmap::IndexMap;
use vstd::prelude::*;

use crate::dev::Platform;
use crate::text::texts;

verus! {

/// A tool that is one file.
pub struct BinaryEntry {
    pub url: String,
    pub sha1: Option<String>,
    pub dest: String,
}

/// A tool that is one file, for each platform.
pub struct BinaryTool {
    pub path_names: Vec<String>,
    pub windows: BinaryEntry,
    pub linux: BinaryEntry,
}

impl BinaryTool {
    /// The entry for a platform.
    pub open spec fn on(self, platform: Platform) -> BinaryEntry {
        match platform {
            Platform::Windows => self.windows,
            Platform::Linux => self.linux,
        }
    }

    /// The entry for a platform.
    pub fn current(&self, platform: Platform) -> (r: &BinaryEntry)
        ensures
            *r == self.on(platform),
    {
        match platform {
            Platform::Windows => &self.windows,
            Platform::Linux => &self.linux,
        }
    }
}

/// A tool that is one entry of a zip archive.
pub struct ZipEntry {
    pub url: String,
    pub sha1: Option<String>,
    pub archive: String,
    pub entry: String,
    pub dest: String,
}

/// A tool that is one entry of a zip archive, for each platform.
pub struct ZipTool {
    pub path_names: Vec<String>,
    pub windows: ZipEntry,
    pub linux: ZipEntry,
}

impl ZipTool {
    /// The entry for a platform.
    pub open spec fn on(self, platform: Platform) -> ZipEntry {
        match platform {
            Platform::Windows => self.windows,
            Platform::Linux => self.linux,
        }
    }

    /// The entry for a platform.
    pub fn current(&self, platform: Platform) -> (r: &ZipEntry)
        ensures
            *r == self.on(platform),
    {
        match platform {
            Platform::Windows => &self.windows,
            Platform::Linux => &self.linux,
        }
    }
}

/// The compiler's archive, and the file that tells that it is unpacked.
pub struct Msvc6 {
    pub url: String,
    pub sha1: Option<String>,
    pub dest_dir: String,
    pub sentinel: String,
}

/// The unpacker on Windows: an installer that is extracted.
pub struct SevenZipWindows {
    pub msi_url: String,
    pub msi_dest: String,
    pub extract_dir: String,
    pub exe_subpath: String,
}

/// The unpacker on Linux: an archive.
pub struct SevenZipLinux {
    pub url: String,
    pub sha1: Option<String>,
    pub archive: String,
    pub extract_dir: String,
    pub dest: String,
}

/// The unpacker.
pub struct SevenZip {
    pub path_names: Vec<String>,
    pub windows: SevenZipWindows,
    pub linux: SevenZipLinux,
}

impl SevenZip {
    /// Where the unpacker goes: the pieces of its path.
    pub open spec fn pieces(self, platform: Platform) -> Seq<Seq<char>> {
        match platform {
            Platform::Windows => seq![self.windows.extract_dir@, self.windows.exe_subpath@],
            Platform::Linux => seq![self.linux.dest@],
        }
    }

    /// Where the unpacker goes: the pieces of its path, to be joined.
    pub fn dest(&self, platform: Platform) -> (r: Vec<String>)
        ensures
            texts(r@) == self.pieces(platform),
    {
        let mut v: Vec<String> = Vec::new();
        match platform {
            Platform::Windows => {
                v.push(self.windows.extract_dir.as_str().to_owned());
                v.push(self.windows.exe_subpath.as_str().to_owned());
            },
            Platform::Linux => {
                v.push(self.linux.dest.as_str().to_owned());
            },
        }
        assert(texts(v@) =~= self.pieces(platform));
        v
    }
}

/// All tools.
pub struct ToolsManifest {
    pub delink: BinaryTool,
    pub objdiff_cli: BinaryTool,
    pub objdiff: BinaryTool,
    pub ninja: ZipTool,
    pub msvc6: Msvc6,
    pub seven_zip: SevenZip,
}

/// The original binaries: their archive, and of each its hash.
pub struct OrigManifest {
    pub archive_url: String,
    pub binaries: IndexMap<String, String>,
}

/// Where the tools are listed.
pub fn tools_path() -> (r: String)
    ensures
        r@ == "config/tools.json"@,
{
    "config/tools.json".to_owned()
}

/// Where a configuration lists its original binaries.
pub fn orig_path(config_id: &str) -> (r: String)
    ensures
        r@ == "config/"@ + config_id@ + "/orig.json"@,
{
    let mut s = String::from_str("config/");
    s.append(config_id);
    s.append("/orig.json");
    s
}

} // verus!
