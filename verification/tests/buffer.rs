use circular_buffer::CircularBuffer;
use circular_buffer::Error;

#[test]
fn capacity_bound() {
    let mut buffer = CircularBuffer::<u32>::new(4);
    assert_eq!(Ok(()), buffer.write(10));
    assert_eq!(Ok(()), buffer.write(11));
    assert_eq!(Ok(()), buffer.write(12));
    assert_eq!(Ok(()), buffer.write(13));
    assert_eq!(Err(Error::FullBuffer), buffer.write(14));
    assert_eq!(Ok(10), buffer.read());
}

#[test]
fn empty_bound() {
    let mut buffer = CircularBuffer::<u32>::new(8);
    assert_eq!(Err(Error::EmptyBuffer), buffer.read());
}

#[test]
fn fifo_order() {
    let mut buffer = CircularBuffer::<u32>::new(5);
    assert_eq!(Ok(()), buffer.write(1));
    assert_eq!(Ok(()), buffer.write(2));
    assert_eq!(Ok(()), buffer.write(3));
    assert_eq!(Ok(1), buffer.read());
    assert_eq!(Ok(2), buffer.read());
    assert_eq!(Ok(3), buffer.read());
    assert_eq!(Err(Error::EmptyBuffer), buffer.read());
}

#[test]
fn round_trip_interleaved() {
    let mut buffer = CircularBuffer::<u32>::new(2);
    assert_eq!(Ok(()), buffer.write(1));
    assert_eq!(Ok(()), buffer.write(2));
    assert_eq!(Ok(1), buffer.read());
    assert_eq!(Ok(()), buffer.write(3));
    assert_eq!(Ok(2), buffer.read());
    assert_eq!(Ok(()), buffer.write(4));
    assert_eq!(Ok(3), buffer.read());
    assert_eq!(Ok(()), buffer.write(5));
    assert_eq!(Ok(4), buffer.read());
    assert_eq!(Ok(5), buffer.read());
    assert_eq!(Err(Error::EmptyBuffer), buffer.read());
}

#[test]
fn overwrite_evicts_oldest() {
    let mut buffer = CircularBuffer::<u32>::new(4);
    assert_eq!(Ok(()), buffer.write(1));
    assert_eq!(Ok(()), buffer.write(2));
    assert_eq!(Ok(()), buffer.write(3));
    assert_eq!(Ok(()), buffer.write(4));
    buffer.overwrite(5);
    assert_eq!(Ok(2), buffer.read());
    assert_eq!(Ok(3), buffer.read());
    assert_eq!(Ok(4), buffer.read());
    assert_eq!(Ok(5), buffer.read());
    assert_eq!(Err(Error::EmptyBuffer), buffer.read());
}

#[test]
fn overwrite_acts_as_write_when_not_full() {
    let mut written = CircularBuffer::<u32>::new(3);
    let mut overwritten = CircularBuffer::<u32>::new(3);
    assert_eq!(Ok(()), written.write(7));
    overwritten.overwrite(7);
    assert_eq!(Ok(()), written.write(8));
    overwritten.overwrite(8);
    assert_eq!(Ok(7), written.read());
    assert_eq!(Ok(7), overwritten.read());
    assert_eq!(Ok(8), written.read());
    assert_eq!(Ok(8), overwritten.read());
    assert_eq!(Err(Error::EmptyBuffer), written.read());
    assert_eq!(Err(Error::EmptyBuffer), overwritten.read());
}

#[test]
fn clear_makes_next_read_fail() {
    let mut buffer = CircularBuffer::<u32>::new(3);
    assert_eq!(Ok(()), buffer.write(1));
    assert_eq!(Ok(()), buffer.write(2));
    buffer.clear();
    assert_eq!(Err(Error::EmptyBuffer), buffer.read());
}

#[test]
fn clear_twice_is_clear_once() {
    let mut buffer = CircularBuffer::<u32>::new(3);
    assert_eq!(Ok(()), buffer.write(1));
    buffer.clear();
    buffer.clear();
    assert_eq!(Err(Error::EmptyBuffer), buffer.read());
    assert_eq!(Ok(()), buffer.write(9));
    assert_eq!(Ok(9), buffer.read());
}

#[test]
fn capacity_one_scenario() {
    let mut buffer = CircularBuffer::<u32>::new(1);
    assert_eq!(Ok(()), buffer.write(5));
    assert_eq!(Err(Error::FullBuffer), buffer.write(6));
    assert_eq!(Ok(5), buffer.read());
    assert_eq!(Err(Error::EmptyBuffer), buffer.read());
}

#[test]
fn capacity_three_overwrite_scenario() {
    let mut buffer = CircularBuffer::<u32>::new(3);
    assert_eq!(Ok(()), buffer.write(1));
    assert_eq!(Ok(()), buffer.write(2));
    assert_eq!(Ok(()), buffer.write(3));
    assert_eq!(Err(Error::FullBuffer), buffer.write(4));
    buffer.overwrite(4);
    assert_eq!(Ok(2), buffer.read());
    assert_eq!(Ok(3), buffer.read());
    assert_eq!(Ok(4), buffer.read());
    assert_eq!(Err(Error::EmptyBuffer), buffer.read());
}

#[test]
fn zero_capacity_refuses_everything() {
    let mut buffer = CircularBuffer::<u32>::new(0);
    assert_eq!(Err(Error::FullBuffer), buffer.write(1));
    assert_eq!(Err(Error::EmptyBuffer), buffer.read());
    buffer.overwrite(2);
    assert_eq!(Err(Error::EmptyBuffer), buffer.read());
    buffer.clear();
    assert_eq!(Err(Error::FullBuffer), buffer.write(3));
}

#[test]
fn cursors_wrap_around_storage() {
    let mut buffer = CircularBuffer::<u32>::new(2);
    let mut next: u32 = 0;
    while next < 10 {
        assert_eq!(Ok(()), buffer.write(next));
        assert_eq!(Ok(next), buffer.read());
        next += 1;
    }
    assert_eq!(Err(Error::EmptyBuffer), buffer.read());
}

#[test]
fn full_buffer_write_leaves_contents_alone() {
    let mut buffer = CircularBuffer::<u32>::new(2);
    assert_eq!(Ok(()), buffer.write(1));
    assert_eq!(Ok(()), buffer.write(2));
    assert_eq!(Err(Error::FullBuffer), buffer.write(3));
    assert_eq!(Err(Error::FullBuffer), buffer.write(4));
    assert_eq!(Ok(1), buffer.read());
    assert_eq!(Ok(2), buffer.read());
    assert_eq!(Err(Error::EmptyBuffer), buffer.read());
}

#[test]
fn owned_elements_move_out_on_read() {
    let mut buffer = CircularBuffer::<String>::new(2);
    assert_eq!(Ok(()), buffer.write(String::from("first")));
    assert_eq!(Ok(()), buffer.write(String::from("second")));
    let taken = buffer.read().expect("one element should be stored");
    assert_eq!("first", taken);
    assert_eq!(Ok(()), buffer.write(String::from("third")));
    assert_eq!(Ok(String::from("second")), buffer.read());
    assert_eq!(Ok(String::from("third")), buffer.read());
    assert_eq!(Err(Error::EmptyBuffer), buffer.read());
}

#[test]
fn error_kinds_are_distinguishable() {
    let empty = Error::EmptyBuffer;
    let full = Error::FullBuffer;
    assert_ne!(empty, full);
    assert!(matches!(empty, Error::EmptyBuffer));
    assert!(matches!(full, Error::FullBuffer));
    assert_eq!(empty, empty.clone());
}
