use bittorrent::utp::header::Header;
use bittorrent::utp::packet_type::PacketType;

#[test]
fn header_test_display() {
    let header = Header::new(0, 1, 0, 42, 1997, 3, 4048, 5, 3);
    let expected = "\
         0       4       8               16              24              32\n\
         +-------+-------+---------------+---------------+---------------+\n\
         | 0x0   | 0x1   | 0x00          | 0x002a                        |\n\
         +-------+-------+---------------+---------------+---------------+\n\
         | 0x000007cd                                                    |\n\
         +---------------+---------------+---------------+---------------+\n\
         | 0x00000003                                                    |\n\
         +---------------+---------------+---------------+---------------+\n\
         | 0x00000fd0                                                    |\n\
         +---------------+---------------+---------------+---------------+\n\
         | 0x0005                        | 0x0003                        |\n\
         +---------------+---------------+---------------+---------------+\n";
    assert_eq!(expected, header.to_string());
}

#[test]
fn header_fields_above_nine_use_lower_case_letters() {
    let header = Header::new(10, 255, 171, 65535, 0xdeadbeef, 0, 0xffffffff, 0xabcd, 16);
    let expected = "\
         0       4       8               16              24              32\n\
         +-------+-------+---------------+---------------+---------------+\n\
         | 0xa   | 0xff   | 0xab          | 0xffff                        |\n\
         +-------+-------+---------------+---------------+---------------+\n\
         | 0xdeadbeef                                                    |\n\
         +---------------+---------------+---------------+---------------+\n\
         | 0x00000000                                                    |\n\
         +---------------+---------------+---------------+---------------+\n\
         | 0xffffffff                                                    |\n\
         +---------------+---------------+---------------+---------------+\n\
         | 0xabcd                        | 0x0010                        |\n\
         +---------------+---------------+---------------+---------------+\n";
    assert_eq!(expected, header.to_string());
    assert_eq!(header, Header::new(10, 255, 171, 65535, 0xdeadbeef, 0, 0xffffffff, 0xabcd, 16));
}

#[test]
fn packet_types_are_numbered_from_zero() {
    assert_eq!(PacketType::STData, PacketType::from(0));
    assert_eq!(PacketType::STFin, PacketType::from(1));
    assert_eq!(PacketType::STState, PacketType::from(2));
    assert_eq!(PacketType::STReset, PacketType::from(3));
    assert_eq!(PacketType::STSyn, PacketType::from(4));
    assert_eq!(4, PacketType::STSyn.code());
    assert_eq!("0x0", PacketType::STData.to_string());
    assert_eq!("0x4", PacketType::STSyn.to_string());
}
