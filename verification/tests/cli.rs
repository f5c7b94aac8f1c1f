use bittorrent::bencode::decoder::Decoder;
use bittorrent::cli::Command;
use bittorrent::torrent::reader::TorrentReader;

#[test]
fn commands_by_name() {
    assert_eq!(Command::from_cli("decode"), Ok(Command::Decode));
    assert_eq!(Command::from_cli("info"), Ok(Command::Info));
    assert_eq!(Command::from_cli("peers"), Err("unknown command: peers".to_string()));
    assert_eq!(Command::from_cli(""), Err("unknown command: ".to_string()));
}

#[test]
fn torrent_reader_gives_empty_torrent() {
    let reader = TorrentReader::new(Decoder::new());
    let torrent = reader.read("d8:announce3:urle".to_string()).unwrap();
    assert_eq!(torrent.url, "");
    assert_eq!(torrent.length, 0);
}
