use hxgrep::buffer_manager::BufferManager;

#[test]
fn test_buffer_manager_creation() {
    let mut manager = BufferManager::new(1024, 512);
    assert_eq!(manager.get_main_buffer().len(), 1024);
    assert_eq!(manager.get_extra_buffer(0).len(), 512);
}

#[test]
fn test_read_into_main() {
    let mut manager = BufferManager::new(10, 5);
    let data = b"Hello World";

    let bytes_read = manager.read_into_main(data);
    assert_eq!(bytes_read, 10);
    assert_eq!(manager.get_main_slice(0, bytes_read), b"Hello Worl");
}

#[test]
fn test_extra_buffer_resize() {
    let mut manager = BufferManager::new(10, 5);

    let buffer = manager.get_extra_buffer(20);
    assert_eq!(buffer.len(), 20);
}

#[test]
fn test_combine_buffers() {
    let mut manager = BufferManager::new(10, 10);
    manager.get_main_buffer()[0..5].copy_from_slice(b"Hello");
    manager.get_extra_buffer(0)[0..5].copy_from_slice(b"World");

    let combined = manager.combine_buffers(0, 5, 5);
    assert_eq!(combined, b"HelloWorld");
}

#[test]
fn extra_buffer_never_shrinks() {
    let mut manager = BufferManager::new(4, 16);
    assert_eq!(manager.get_extra_buffer(8).len(), 16);
}

#[test]
fn read_into_extra_reads_at_most_size() {
    let mut manager = BufferManager::new(4, 2);
    let n = manager.read_into_extra(b"abcdef", 4);
    assert_eq!(n, 4);
    assert_eq!(manager.get_extra_slice(4), b"abcd");
    let short = manager.read_into_extra(b"xy", 4);
    assert_eq!(short, 2);
    assert_eq!(manager.get_extra_slice(4), b"xycd");
}

#[test]
fn read_into_main_from_empty_source() {
    let mut manager = BufferManager::new(8, 8);
    assert_eq!(manager.read_into_main(b""), 0);
}
