use vstd::prelude::*;

verus! {

/// The kind of filesystem entry a directory object records. Each kind has a
/// fixed numeric code, embedded in the directory encoding as a six-digit
/// octal string.
#[derive(Clone, Copy, Debug, PartialEq, Eq, Structural)]
pub enum Mode {
    Directory,
    NonExecutableFile,
    NonExecutableGroupWriteableFile,
    ExecutableFile,
    SymbolicLink,
    GitLink,
}

impl Mode {
    /// The canonical numeric code of this mode.
    pub open spec fn code(self) -> nat {
        match self {
            Mode::Directory => 0o040000,
            Mode::NonExecutableFile => 0o100644,
            Mode::NonExecutableGroupWriteableFile => 0o100664,
            Mode::ExecutableFile => 0o100755,
            Mode::SymbolicLink => 0o120000,
            Mode::GitLink => 0o160000,
        }
    }

    /// The zero-padded six-digit octal rendering of `code`, as characters.
    pub open spec fn octal_chars(self) -> Seq<char> {
        match self {
            Mode::Directory => "040000"@,
            Mode::NonExecutableFile => "100644"@,
            Mode::NonExecutableGroupWriteableFile => "100664"@,
            Mode::ExecutableFile => "100755"@,
            Mode::SymbolicLink => "120000"@,
            Mode::GitLink => "160000"@,
        }
    }

    /// The same rendering as raw ASCII bytes: the form the directory
    /// encoding embeds.
    pub open spec fn octal_octets(self) -> Seq<u8> {
        match self {
            Mode::Directory => seq![0x30u8, 0x34, 0x30, 0x30, 0x30, 0x30],
            Mode::NonExecutableFile => seq![0x31u8, 0x30, 0x30, 0x36, 0x34, 0x34],
            Mode::NonExecutableGroupWriteableFile => seq![0x31u8, 0x30, 0x30, 0x36, 0x36, 0x34],
            Mode::ExecutableFile => seq![0x31u8, 0x30, 0x30, 0x37, 0x35, 0x35],
            Mode::SymbolicLink => seq![0x31u8, 0x32, 0x30, 0x30, 0x30, 0x30],
            Mode::GitLink => seq![0x31u8, 0x36, 0x30, 0x30, 0x30, 0x30],
        }
    }

    /// Render the mode's numeric code as a zero-padded six-digit octal
    /// string.
    pub fn octal_string(&self) -> (r: String)
        ensures
            r@ == self.octal_chars(),
    {
        match self {
            Mode::Directory => String::from_str("040000"),
            Mode::NonExecutableFile => String::from_str("100644"),
            Mode::NonExecutableGroupWriteableFile => String::from_str("100664"),
            Mode::ExecutableFile => String::from_str("100755"),
            Mode::SymbolicLink => String::from_str("120000"),
            Mode::GitLink => String::from_str("160000"),
        }
    }

    /// Render the mode's numeric code as zero-padded six-digit octal ASCII
    /// bytes.
    pub fn octal_bytes(&self) -> (r: Vec<u8>)
        ensures
            r@ == self.octal_octets(),
    {
        match self {
            Mode::Directory => vec![0x30u8, 0x34, 0x30, 0x30, 0x30, 0x30],
            Mode::NonExecutableFile => vec![0x31u8, 0x30, 0x30, 0x36, 0x34, 0x34],
            Mode::NonExecutableGroupWriteableFile => vec![0x31u8, 0x30, 0x30, 0x36, 0x36, 0x34],
            Mode::ExecutableFile => vec![0x31u8, 0x30, 0x30, 0x37, 0x35, 0x35],
            Mode::SymbolicLink => vec![0x31u8, 0x32, 0x30, 0x30, 0x30, 0x30],
            Mode::GitLink => vec![0x31u8, 0x36, 0x30, 0x30, 0x30, 0x30],
        }
    }

    /// The mode a filesystem entry gets, decided purely from its metadata:
    /// whether it is a directory, whether it is a symbolic link, and its
    /// permission bits (the low nine bits of a POSIX file mode). On
    /// platforms without permission bits, pass zero.
    pub open spec fn spec_classify(is_dir: bool, is_symlink: bool, permissions: u32) -> Mode {
        if is_dir {
            Mode::Directory
        } else if is_symlink {
            Mode::SymbolicLink
        } else if permissions & 0o100 != 0 {
            Mode::ExecutableFile
        } else if permissions & 0o020 != 0 {
            Mode::NonExecutableGroupWriteableFile
        } else {
            Mode::NonExecutableFile
        }
    }

    /// Classify a filesystem entry: directories and symbolic links by their
    /// kind, other entries by the owner-executable and group-writable
    /// permission bits.
    pub fn classify(is_dir: bool, is_symlink: bool, permissions: u32) -> (r: Mode)
        ensures
            r == Mode::spec_classify(is_dir, is_symlink, permissions),
    {
        if is_dir {
            Mode::Directory
        } else if is_symlink {
            Mode::SymbolicLink
        } else if permissions & 0o100 != 0 {
            Mode::ExecutableFile
        } else if permissions & 0o020 != 0 {
            Mode::NonExecutableGroupWriteableFile
        } else {
            Mode::NonExecutableFile
        }
    }
}

} // verus!
