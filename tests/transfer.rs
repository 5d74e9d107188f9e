use nexus_link::transfer::{chunk_len, destination_path, offered_name, FileTransfer, TransferError, CHUNK_SIZE};

#[test]
fn prepare_send_reports_name_and_size() {
    let mut ft = FileTransfer::new();
    let (id, name, size) = ft.prepare_send("report.pdf".to_string(), 150000);
    assert_eq!(name, "report.pdf");
    assert_eq!(size, 150000);
    assert_eq!(ft.source_path(id), Ok("report.pdf".to_string()));
}

#[test]
fn chunks_of_a_150000_byte_file() {
    assert_eq!(CHUNK_SIZE, 65536);
    assert_eq!(chunk_len(0, 150000), Some(65536));
    assert_eq!(chunk_len(65536, 150000), Some(65536));
    assert_eq!(chunk_len(147456, 150000), Some(2544));
    assert_eq!(chunk_len(150000, 150000), None);
    assert_eq!(chunk_len(200000, 150000), None);
    assert_eq!(chunk_len(0, 0), None);
}

#[test]
fn offered_name_is_last_component() {
    assert_eq!(offered_name("dir/sub/report.pdf"), "report.pdf");
    assert_eq!(offered_name("report.pdf"), "report.pdf");
    assert_eq!(offered_name("/"), "unknown");
    assert_eq!(offered_name("a/.."), "unknown");
}

#[test]
fn read_of_unknown_transfer_is_not_found() {
    let ft = FileTransfer::new();
    assert_eq!(ft.source_path(3), Err(TransferError::TransferNotFound));
}

#[test]
fn destination_is_under_downloads() {
    assert_eq!(destination_path("x.bin"), "downloads/x.bin");
}

#[test]
fn three_chunks_complete_a_100_byte_file() {
    let mut ft = FileTransfer::new();
    let path = ft.prepare_receive(9, "x.bin", 100);
    assert_eq!(path, "downloads/x.bin");
    assert_eq!(ft.receive_chunk(9, 0, &[1u8; 40]), Ok(false));
    assert_eq!(ft.receive_chunk(9, 40, &[2u8; 40]), Ok(false));
    assert_eq!(ft.receive_chunk(9, 80, &[3u8; 20]), Ok(true));
}

#[test]
fn overshooting_chunk_completes() {
    let mut ft = FileTransfer::new();
    ft.prepare_receive(9, "x.bin", 10);
    assert_eq!(ft.receive_chunk(9, 0, &[0u8; 4]), Ok(false));
    assert_eq!(ft.receive_chunk(9, 4, &[0u8; 30]), Ok(true));
}

#[test]
fn empty_file_completes_on_first_chunk() {
    let mut ft = FileTransfer::new();
    ft.prepare_receive(1, "e", 0);
    assert_eq!(ft.receive_chunk(1, 0, &[]), Ok(true));
}

#[test]
fn chunk_for_unknown_transfer_is_not_found() {
    let mut ft = FileTransfer::new();
    assert_eq!(ft.receive_chunk(4, 0, &[1, 2]), Err(TransferError::TransferNotFound));
}

#[test]
fn apply_chunk_finalizes_on_completion() {
    let mut ft = FileTransfer::new();
    ft.prepare_receive(9, "x.bin", 100);
    assert_eq!(ft.apply_chunk(9, 0, &[0u8; 60]), Ok(false));
    assert_eq!(ft.apply_chunk(9, 60, &[0u8; 40]), Ok(true));
    assert_eq!(ft.apply_chunk(9, 100, &[0u8; 1]), Err(TransferError::TransferNotFound));
}

#[test]
fn finalize_twice_is_like_once() {
    let mut ft = FileTransfer::new();
    ft.register_send(5, "a.txt".to_string());
    ft.prepare_receive(5, "a.txt", 3);
    ft.register_send(6, "b.txt".to_string());
    ft.complete(5);
    ft.complete(5);
    assert_eq!(ft.source_path(5), Err(TransferError::TransferNotFound));
    assert_eq!(ft.receive_chunk(5, 0, &[1]), Err(TransferError::TransferNotFound));
    assert_eq!(ft.source_path(6), Ok("b.txt".to_string()));
}

#[test]
fn prepare_receive_again_restarts_count() {
    let mut ft = FileTransfer::new();
    ft.prepare_receive(2, "y", 10);
    assert_eq!(ft.receive_chunk(2, 0, &[0u8; 6]), Ok(false));
    ft.prepare_receive(2, "y", 10);
    assert_eq!(ft.receive_chunk(2, 0, &[0u8; 6]), Ok(false));
    assert_eq!(ft.receive_chunk(2, 6, &[0u8; 4]), Ok(true));
}
