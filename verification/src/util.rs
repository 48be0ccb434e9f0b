//! Byte-source selection and byte-sink writing for the command-line front
//! end.
//!
//! A command reads its payload from a named file or from standard input,
//! and writes its output to a named file or to standard output.  The reads
//! and flushes are the embedding process's; decided and proved here is
//! which bytes count and that they pass through unchanged.

use vstd::prelude::*;

verus! {

/// The bytes a command takes as input: the contents of the named file
/// where a file was given, the standard-input bytes otherwise.
pub fn read_file_or_stdin(file_bytes: Option<Vec<u8>>, stdin_bytes: Vec<u8>) -> (r: Vec<u8>)
    ensures
        match file_bytes {
            Some(b) => r@ == b@,
            None => r@ == stdin_bytes@,
        },
{
    match file_bytes {
        Some(b) => b,
        None => stdin_bytes,
    }
}

/// Writes a command's output into the chosen sink, byte for byte and in
/// order; the embedding process flushes the sink to the named file or to
/// standard output.
pub fn write_file_or_stdout(data: &Vec<u8>, sink: &mut Vec<u8>)
    ensures
        final(sink)@ == old(sink)@ + data@,
{
    let n = data.len();
    let mut k: usize = 0;
    while k < n
        invariant
            0 <= k <= n,
            n == data@.len(),
            sink@ == old(sink)@ + data@.take(k as int),
        decreases n - k,
    {
        sink.push(data[k]);
        proof {
            assert(sink@ =~= old(sink)@ + data@.take(k + 1));
        }
        k = k + 1;
    }
    proof {
        assert(data@.take(n as int) =~= data@);
    }
}

} // verus!
