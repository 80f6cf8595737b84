//! What is known of a file or a directory besides its name.
use vstd::prelude::*;

verus! {

/// The mode of a directory.
pub const MODE_DIR: u64 = 0o040000;

/// The mode of a regular file.
pub const MODE_FILE: u64 = 0o100644;

/// The mode of a symbolic link. None is ever created.
pub const MODE_SYMLINK: u64 = 0o120000;

/// A point in time: seconds and nanoseconds since the start of 1970.
#[derive(Clone, Copy, Debug, PartialEq, Eq, Structural)]
pub struct Timestamp {
    pub secs: u64,
    pub nanos: u32,
}

/// The time of the system clock.
#[verifier::external_type_specification]
#[verifier::external_body]
pub struct ExSystemTime(std::time::SystemTime);

/// The time that `std::time::SystemTime::now` gives. Nothing is promised
/// of it: two calls may give any two times.
#[verifier::external_body]
fn system_now() -> std::time::SystemTime {
    std::time::SystemTime::now()
}

/// How long after the start of 1970 the time `t` is, as
/// `std::time::SystemTime::duration_since` gives it; none for a time
/// before. Nothing is promised of it.
#[verifier::external_body]
fn after_epoch(t: &std::time::SystemTime) -> Option<core::time::Duration> {
    t.duration_since(std::time::UNIX_EPOCH).ok()
}

/// The whole seconds of `d`, as `std::time::Duration::as_secs` gives
/// them. Nothing is promised of them.
#[verifier::external_body]
fn whole_secs(d: &core::time::Duration) -> u64 {
    d.as_secs()
}

/// The part of a second of `d` in nanoseconds, as
/// `std::time::Duration::subsec_nanos` gives it: fewer than a billion.
#[verifier::external_body]
fn part_nanos(d: &core::time::Duration) -> (n: u32)
    ensures
        n < 1_000_000_000,
{
    d.subsec_nanos()
}

impl Timestamp {
    /// The time now, as the system clock gives it: seconds since the start
    /// of 1970, and the part of a second that follows them in nanoseconds;
    /// the start of 1970 itself where the clock is set before it.
    pub fn now() -> (at: Timestamp)
        ensures
            at.nanos < 1_000_000_000,
    {
        let t = system_now();
        match after_epoch(&t) {
            Some(d) => Timestamp { secs: whole_secs(&d), nanos: part_nanos(&d) },
            None => Timestamp { secs: 0, nanos: 0 },
        }
    }
}

/// The length, the kind and the time of the last change of an entry of a
/// directory.
#[derive(Clone, Copy, Debug, PartialEq, Eq, Structural)]
pub struct Meta {
    pub len: u64,
    pub mode: u64,
    pub mtime: Timestamp,
}

impl Meta {
    /// The metadata of a directory that was changed at `mtime`.
    pub fn folder_at(mtime: Timestamp) -> (meta: Meta)
        ensures
            meta == (Meta { len: 0, mode: MODE_DIR, mtime }),
    {
        Meta { len: 0, mode: MODE_DIR, mtime }
    }

    /// The metadata of a file of `len` bytes that was changed at `mtime`.
    pub fn file_at(len: u64, mtime: Timestamp) -> (meta: Meta)
        ensures
            meta == (Meta { len, mode: MODE_FILE, mtime }),
    {
        Meta { len, mode: MODE_FILE, mtime }
    }

    /// The metadata of a directory that is made now.
    pub fn new_folder() -> (meta: Meta)
        ensures
            meta.len == 0,
            meta.mode == MODE_DIR,
    {
        Meta::folder_at(Timestamp::now())
    }

    /// The metadata of a file of `len` bytes that is made now.
    pub fn new_file(len: u64) -> (meta: Meta)
        ensures
            meta.len == len,
            meta.mode == MODE_FILE,
    {
        Meta::file_at(len, Timestamp::now())
    }

    /// The length in bytes.
    pub fn len(&self) -> (n: u64)
        ensures
            n == self.len,
    {
        self.len
    }

    /// Whether this is a directory.
    pub fn is_dir(&self) -> (b: bool)
        ensures
            b == (self.mode == MODE_DIR),
    {
        self.mode == MODE_DIR
    }

    /// Whether this is a regular file.
    pub fn is_file(&self) -> (b: bool)
        ensures
            b == (self.mode == MODE_FILE),
    {
        self.mode == MODE_FILE
    }

    /// Whether this is a symbolic link.
    pub fn is_symlink(&self) -> (b: bool)
        ensures
            b == (self.mode == MODE_SYMLINK),
    {
        self.mode == MODE_SYMLINK
    }

    /// The time of the last change.
    pub fn modified(&self) -> (t: Timestamp)
        ensures
            t == self.mtime,
    {
        self.mtime
    }

    /// The group that owns the entry: always 0.
    pub fn gid(&self) -> (id: u32)
        ensures
            id == 0,
    {
        0
    }

    /// The user that owns the entry: always 0.
    pub fn uid(&self) -> (id: u32)
        ensures
            id == 0,
    {
        0
    }
}

} // verus!
