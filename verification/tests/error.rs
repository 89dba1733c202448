use resident_fat::error::try_filled;
use resident_fat::{Error, FatError, Result};


/// A device error carrying exactly what the trait demands and nothing
/// more, which is the shape a `#[derive(Debug)]` enum in a driver has.
#[derive(Debug)]
struct DebugOnly;

/// A conforming device error is enough to print this crate's errors.
///
/// The bound on `BlockDevice::Error`
/// is `Debug` alone, so a driver is under no obligation to implement
/// `Display`. If `Error<E>`'s own `Display` asked for one anyway — which
/// it would the moment the `Device` variant formatted its payload with
/// `{}` instead of `{:?}` — then the errors this crate returns could not
/// be printed by the consumers it was written for, and the failure would
/// land in their build rather than in this one.
#[test]
fn errors_print_for_any_conforming_device_error() {
    let error: Error<DebugOnly> = Error::device(DebugOnly);
    assert_eq!(
        error.message(),
        "block device error: DebugOnly",
        "the device error should reach the message"
    );

    // And the variants that carry no device error at all stay legible
    // whatever `E` is.
    let full: Error<DebugOnly> = FatError::DiskFull { wanted: 4, free: 1 }.into();
    assert_eq!(
        full.message(),
        "no room: 4 clusters wanted, 1 free"
    );
}

/// An allocation that cannot succeed is reported, not attempted.
///
/// What makes this worth pinning is where the sizes come from. A file's
/// length and a table's sector count are fields on the volume, so an
/// infallible `vec![value; n]` hands a corrupt card the power to call
/// the `alloc` error handler — which aborts, with no unwinder on a
/// bare-metal target to catch it. Rejecting the card is the filesystem's
/// business; halting the board is not.
///
/// `u64::MAX` is the request used because it fails the same way on every
/// target and allocates nothing on any of them: on a 32-bit target it
/// exceeds `usize` and is refused by the conversion, and on a 64-bit one
/// it exceeds the largest possible allocation and is refused by
/// `try_reserve_exact` before a byte is asked for.
#[test]
fn an_impossible_allocation_is_reported_rather_than_attempted() {
    let refused: Result<Vec<u8>, DebugOnly> = try_filled(0u8, u64::MAX);
    match refused {
        Err(Error::OutOfMemory { bytes }) => assert_eq!(bytes, u64::MAX),
        other => panic!("expected OutOfMemory, got {other:?}"),
    }

    // The reported size saturates rather than wrapping. A count that
    // overflows when scaled by the element size must not come back as a
    // small number, which would read as a trivial allocation failing.
    let wide: Result<Vec<u32>, DebugOnly> = try_filled(0u32, u64::MAX / 2);
    match wide {
        Err(Error::OutOfMemory { bytes }) => assert_eq!(bytes, u64::MAX),
        other => panic!("expected OutOfMemory, got {other:?}"),
    }
}

/// And an allocation that can succeed still does, at the exact length.
#[test]
fn a_possible_allocation_still_happens() {
    let buffer: Result<Vec<u8>, DebugOnly> = try_filled(7u8, 4);
    assert_eq!(buffer.expect("4 bytes should be available"), [7, 7, 7, 7]);

    let empty: Result<Vec<u8>, DebugOnly> = try_filled(0u8, 0);
    assert!(
        empty.expect("an empty buffer is not a failure").is_empty(),
        "a zero-length chain asks for nothing and must not be an error"
    );
}
