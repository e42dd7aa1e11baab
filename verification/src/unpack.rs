//! Unpacking a package in one step.

use crate::bpx;
use crate::bpxp;
use crate::bpxp::files_view;
use crate::bpxp::package_fault;
use crate::bpxp::unpack_outcome;
use crate::bpxp::unpack_reads_xz;
use crate::bpxp::PackedFile;
use crate::error::Error;
use vstd::prelude::*;

verus! {

/// What unpacking the bytes of a package gives: the error of what is no
/// package, else the outcome of unpacking its sections.
pub open spec fn run_outcome(file: Seq<u8>) -> Result<Seq<(Seq<char>, Seq<u8>)>, Error> {
    match package_fault(file) {
        Some(e) => Err(e),
        None => unpack_outcome(file, bpx::headers_of(file, bpx::announced_sections(file))),
    }
}

/// Opens the package that the bytes hold and unpacks its files.
///
/// The result is the one that `run_outcome` gives, but for one case: where
/// the string table or a data section of a sound package is stored
/// compressed, it may be refused with `Inflate` though its stream is sound,
/// as `section::open_section` says. Where none of them is compressed, the
/// files are unpacked if and only if `run_outcome` gives them.
pub fn run(file: Vec<u8>) -> (r: Result<Vec<PackedFile>, Error>)
    ensures
        match r {
            Ok(files) => run_outcome(file@) == Ok::<Seq<(Seq<char>, Seq<u8>)>, Error>(
                files_view(files@),
            ),
            Err(e) => run_outcome(file@) == Err::<Seq<(Seq<char>, Seq<u8>)>, Error>(e) || (
            package_fault(file@) is None && e == Error::Inflate && unpack_reads_xz(
                bpx::headers_of(file@, bpx::announced_sections(file@)),
            )),
        },
        !unpack_reads_xz(bpx::headers_of(file@, bpx::announced_sections(file@))) ==> (r is Ok
            <==> run_outcome(file@) is Ok),
{
    let decoder = match bpxp::Decoder::new(file) {
        Ok(d) => d,
        Err(e) => {
            return Err(e);
        },
    };
    decoder.unpack()
}

} // verus!
