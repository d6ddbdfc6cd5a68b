use learnkit::packet::{
    calculate_ip_checksum, calculate_tcp_checksum, IpHeader, TcpHeader, TCP_ACK, TCP_FIN,
    TCP_PSH, TCP_RST, TCP_SYN, TCP_URG,
};

const SAMPLE_IP: [u8; 20] = [
    0x45, 0x00, 0x00, 0x3c, // Version=4, IHL=5, TOS=0, Len=60
    0x1c, 0x46, 0x40, 0x00, // ID, Flags, Offset
    0x40, 0x06, 0xb1, 0xe6, // TTL=64, Proto=6 (TCP), Checksum
    0xac, 0x10, 0x0a, 0x63, // Src: 172.16.10.99
    0xac, 0x10, 0x0a, 0x0c, // Dst: 172.16.10.12
];

#[test]
fn test_ip_checksum() {
    // Simple IP header with known checksum
    let header = [
        0x45, 0x00, 0x00, 0x3c, // Version, IHL, TOS, Total Length
        0x1c, 0x46, 0x40, 0x00, // ID, Flags, Fragment Offset
        0x40, 0x06, 0x00, 0x00, // TTL, Protocol, Checksum (zeroed)
        0xac, 0x10, 0x0a, 0x63, // Source IP: 172.16.10.99
        0xac, 0x10, 0x0a, 0x0c, // Dest IP: 172.16.10.12
    ];

    let checksum = calculate_ip_checksum(&header);
    assert_ne!(checksum, 0, "Checksum should not be zero");
}

#[test]
fn test_ip_parse() {
    let packet = SAMPLE_IP;

    let ip = IpHeader::parse(&packet).unwrap();
    assert_eq!(ip.version, 4);
    assert_eq!(ip.protocol, 6); // TCP
    assert_eq!(ip.src_addr, [172, 16, 10, 99]);
    assert_eq!(ip.dst_addr, [172, 16, 10, 12]);
}

#[test]
fn test_tcp_parse() {
    let tcp_data = [
        0x04, 0xd2, 0x00, 0x50, // Src port=1234, Dst port=80
        0x00, 0x00, 0x00, 0x01, // Seq=1
        0x00, 0x00, 0x00, 0x00, // Ack=0
        0x50, 0x02, 0x20, 0x00, // Offset=5, Flags=SYN, Window=8192
        0x00, 0x00, 0x00, 0x00, // Checksum, Urgent
    ];

    let tcp = TcpHeader::parse(&tcp_data).unwrap();
    assert_eq!(tcp.src_port, 1234);
    assert_eq!(tcp.dst_port, 80);
    assert_eq!(tcp.seq_num, 1);
    assert!(tcp.syn());
    assert!(!tcp.ack());
}

#[test]
fn ip_checksum_exact_value() {
    let mut header = SAMPLE_IP;
    header[10] = 0;
    header[11] = 0;
    assert_eq!(calculate_ip_checksum(&header), 0xb1e6);
    // A header that carries its own checksum sums to zero.
    assert_eq!(calculate_ip_checksum(&SAMPLE_IP), 0);
}

#[test]
fn ip_checksum_odd_length_pads_with_zero() {
    assert_eq!(calculate_ip_checksum(&[0x12, 0x34, 0x56]), !(0x1234u16 + 0x5600));
    assert_eq!(calculate_ip_checksum(&[]), 0xffff);
}

#[test]
fn ip_checksum_folds_carries() {
    // 0xffff + 0x0001 = 0x10000, folded to 0x0001, complemented to 0xfffe.
    assert_eq!(calculate_ip_checksum(&[0xff, 0xff, 0x00, 0x01]), 0xfffe);
}

#[test]
fn ip_parse_all_fields() {
    let ip = IpHeader::parse(&SAMPLE_IP).unwrap();
    assert_eq!(ip.ihl, 5);
    assert_eq!(ip.header_len, 20);
    assert_eq!(ip.tos, 0);
    assert_eq!(ip.total_len, 60);
    assert_eq!(ip.identification, 0x1c46);
    assert_eq!(ip.flags, 2);
    assert_eq!(ip.fragment_offset, 0);
    assert_eq!(ip.ttl, 64);
    assert_eq!(ip.checksum, 0xb1e6);
    assert!(ip.validate_checksum(&SAMPLE_IP));
}

#[test]
fn ip_parse_errors() {
    assert_eq!(
        IpHeader::parse(&SAMPLE_IP[..19]).unwrap_err(),
        "Packet too short for IP header"
    );
    let mut v6 = SAMPLE_IP;
    v6[0] = 0x65;
    assert_eq!(IpHeader::parse(&v6).unwrap_err(), "Not IPv4");
    let mut long = SAMPLE_IP;
    long[0] = 0x46;
    assert_eq!(
        IpHeader::parse(&long).unwrap_err(),
        "Packet shorter than indicated header length"
    );
}

#[test]
fn ip_build_then_parse_and_validate() {
    let ip = IpHeader::parse(&SAMPLE_IP).unwrap();
    let mut buffer = [0xaau8; 24];
    assert_eq!(ip.build(&mut buffer), Ok(20));
    assert_eq!(&buffer[..20], &SAMPLE_IP[..]);
    assert_eq!(&buffer[20..], &[0xaa; 4]);
    let again = IpHeader::parse(&buffer).unwrap();
    assert!(again.validate_checksum(&buffer));
    assert_eq!(again.src_addr, ip.src_addr);
    assert_eq!(again.identification, ip.identification);
}

#[test]
fn ip_build_buffer_too_small() {
    let ip = IpHeader::parse(&SAMPLE_IP).unwrap();
    let mut buffer = [7u8; 19];
    assert_eq!(ip.build(&mut buffer), Err("Buffer too small for IP header"));
    assert_eq!(buffer, [7u8; 19]);
}

#[test]
fn ip_validate_detects_corruption() {
    let mut packet = SAMPLE_IP;
    packet[8] = 0x3f;
    let ip = IpHeader::parse(&packet).unwrap();
    assert!(!ip.validate_checksum(&packet));
}

#[test]
fn tcp_parse_errors() {
    let short = [0u8; 19];
    assert_eq!(
        TcpHeader::parse(&short).unwrap_err(),
        "Packet too short for TCP header"
    );
    let mut long = [0u8; 20];
    long[12] = 0x60;
    assert_eq!(
        TcpHeader::parse(&long).unwrap_err(),
        "Packet shorter than indicated TCP header length"
    );
}

#[test]
fn tcp_flags_each_bit() {
    let mut data = [0u8; 20];
    data[12] = 0x50;
    data[13] = TCP_FIN | TCP_RST | TCP_URG;
    let tcp = TcpHeader::parse(&data).unwrap();
    assert!(tcp.fin() && tcp.rst() && tcp.urg());
    assert!(!tcp.syn() && !tcp.ack() && !tcp.psh());
    data[13] = 0xc0 | TCP_ACK | TCP_PSH;
    let tcp = TcpHeader::parse(&data).unwrap();
    assert_eq!(tcp.flags, TCP_ACK | TCP_PSH);
    assert!(tcp.ack() && tcp.psh() && !tcp.fin());
    assert_eq!(TCP_SYN, 0x02);
}

#[test]
fn tcp_build_then_parse() {
    let data = [
        0x04, 0xd2, 0x00, 0x50, 0x12, 0x34, 0x56, 0x78, 0x9a, 0xbc, 0xde, 0xf0, 0x50, 0x12, 0x20,
        0x00, 0xbe, 0xef, 0x00, 0x07,
    ];
    let tcp = TcpHeader::parse(&data).unwrap();
    assert_eq!(tcp.seq_num, 0x12345678);
    assert_eq!(tcp.ack_num, 0x9abcdef0);
    assert_eq!(tcp.data_offset, 20);
    assert_eq!(tcp.window, 8192);
    assert_eq!(tcp.urgent_ptr, 7);
    let mut buffer = [0u8; 20];
    assert_eq!(tcp.build(&mut buffer), Ok(20));
    assert_eq!(buffer, data);
    let mut small = [0u8; 10];
    assert_eq!(tcp.build(&mut small), Err("Buffer too small for TCP header"));
}

#[test]
fn tcp_checksum_inserted_validates() {
    let src = [10, 0, 0, 1];
    let dst = [10, 0, 0, 2];
    let mut segment = [
        0x04, 0xd2, 0x00, 0x50, 0, 0, 0, 1, 0, 0, 0, 0, 0x50, 0x02, 0x20, 0x00, 0, 0, 0, 0, 0x61,
    ];
    let checksum = calculate_tcp_checksum(&src, &dst, &segment);
    // Pseudo header: 0x0a00 + 0x0001 + 0x0a00 + 0x0002 + 6 + 21; segment words as written.
    let words: u32 = 0x0a00 + 0x0001 + 0x0a00 + 0x0002 + 6 + 21
        + 0x04d2 + 0x0050 + 0x0001 + 0x5002 + 0x2000 + 0x6100;
    let folded = (words & 0xffff) + (words >> 16);
    assert_eq!(checksum, !(folded as u16));
    segment[16] = (checksum >> 8) as u8;
    segment[17] = (checksum & 0xff) as u8;
    assert_eq!(calculate_tcp_checksum(&src, &dst, &segment), 0);
}

#[test]
fn ip_checksum_appended_validates_and_odd_padding() {
    let data = [0x12u8, 0x34, 0xab, 0xcd, 0xff, 0x01];
    let c = calculate_ip_checksum(&data);
    let mut with = data.to_vec();
    with.extend_from_slice(&c.to_be_bytes());
    assert_eq!(calculate_ip_checksum(&with), 0);
    let odd = [0x12u8, 0x34, 0x56];
    assert_eq!(calculate_ip_checksum(&odd), calculate_ip_checksum(&[0x12, 0x34, 0x56, 0x00]));
}

#[test]
fn tcp_checksum_is_ip_checksum_of_pseudo_header_and_segment() {
    let src = [192, 168, 1, 2];
    let dst = [10, 0, 0, 7];
    let segment = [0x04u8, 0xd2, 0x00, 0x50, 1, 2, 3, 4, 5];
    let mut all = Vec::new();
    all.extend_from_slice(&src);
    all.extend_from_slice(&dst);
    all.extend_from_slice(&[0, 6]);
    all.extend_from_slice(&(segment.len() as u16).to_be_bytes());
    all.extend_from_slice(&segment);
    assert_eq!(calculate_tcp_checksum(&src, &dst, &segment), calculate_ip_checksum(&all));
}
