//! Lexical path canonicalization.
//!
//! This crate resolves `.` and `..` segments of a textual path against a
//! caller-supplied base directory, without ever touching the filesystem.
//! It offers the same operations for the POSIX and the Windows path
//! grammars, as [`UnixPath`] and [`WindowsPath`], both behind the
//! [`Absolutize`] trait: plain absolutization against a base directory,
//! and "virtual root" absolutization, which confines the result to a
//! given directory and rejects every path that would escape it.

use vstd::prelude::*;

pub mod model;
pub mod text;
pub mod unix;
pub mod windows;

pub use unix::UnixPath;
pub use windows::WindowsPath;

verus! {

/// The one semantic failure: a path handed to `absolutize_virtually` that
/// does not stay under the virtual root, or whose drive prefix does not
/// match the root's.
#[derive(Clone, Copy, Debug, PartialEq, Eq, Structural)]
pub enum AbsolutizeError {
    InvalidInput,
}

/// Lexical absolutization of a textual path.
///
/// Implementations fix a platform grammar; the two spec functions say,
/// over the view of the text, exactly what each operation returns.
pub trait Absolutize: View<V = Seq<char>> + Sized {
    /// What `absolutize_from` returns, on the texts alone.
    spec fn absolutize_from_spec(p: Seq<char>, base: Seq<char>) -> Seq<char>;

    /// What `absolutize_virtually` returns, on the texts alone.
    spec fn absolutize_virtually_spec(
        p: Seq<char>,
        virtual_root: Seq<char>,
        base: Seq<char>,
    ) -> Result<Seq<char>, AbsolutizeError>;

    /// Resolve the path against the given base directory and remove every
    /// resolvable `.` and `..` segment.
    fn absolutize_from(&self, base: &Self) -> (r: Self)
        ensures
            r@ == Self::absolutize_from_spec(self@, base@),
    ;

    /// Resolve the path's own `.` and `..` segments — against no base
    /// directory — then confine it to `virtual_root`: an absolute path
    /// must lie under the root, and a relative one is joined onto it. The
    /// base serves only to absolutize the root itself.
    fn absolutize_virtually(&self, virtual_root: &Self, base: &Self) -> (r: Result<
        Self,
        AbsolutizeError,
    >)
        ensures
            match r {
                Ok(q) => Self::absolutize_virtually_spec(self@, virtual_root@, base@)
                    == Ok::<Seq<char>, AbsolutizeError>(q@),
                Err(e) => Self::absolutize_virtually_spec(self@, virtual_root@, base@)
                    == Err::<Seq<char>, AbsolutizeError>(e),
            },
    ;
}

} // verus!
