use diskann_garnet::record::{append_attributes, vector_elements};

fn record(attrs: &[u8], elem_size: usize) -> Vec<u8> {
    let mut extra = (attrs.len() as u32).to_le_bytes().to_vec();
    extra.resize(elem_size.max(4), 0);
    extra.truncate(elem_size);
    extra.extend_from_slice(attrs);
    while extra.len() % elem_size != 0 {
        extra.push(0xee);
    }
    extra
}

#[test]
fn vector_is_cut_at_the_dimension() {
    assert_eq!(vector_elements(10, 4), 4);
    assert_eq!(vector_elements(4, 4), 4);
    assert_eq!(vector_elements(3, 4), 3);
}

#[test]
fn attributes_are_read_back() {
    for elem_size in [1usize, 2, 4, 8] {
        let mut buffer = vec![7u8, 7];
        let attrs = b"color=red";
        let at = append_attributes(&record(attrs, elem_size), elem_size, &mut buffer);
        assert_eq!(at, (2, attrs.len()), "{elem_size}");
        assert_eq!(&buffer[2..], attrs);
        let next = append_attributes(&record(b"x", elem_size), elem_size, &mut buffer);
        assert_eq!(next, (2 + attrs.len(), 1));
        assert_eq!(buffer.last(), Some(&b'x'));
    }
}

#[test]
fn length_has_four_bytes_at_most() {
    let mut extra = vec![1u8, 1, 0, 0];
    extra.extend(vec![5u8; 300]);
    let mut buffer = Vec::new();
    assert_eq!(append_attributes(&extra, 4, &mut buffer), (0, 257));
    let mut buffer = Vec::new();
    assert_eq!(append_attributes(&[3, 9, 8, 7, 6], 1, &mut buffer), (0, 3));
    assert_eq!(buffer, vec![9, 8, 7]);
}

#[test]
fn length_is_cut_at_what_is_there() {
    let mut buffer = vec![1u8];
    assert_eq!(append_attributes(&[200, 0, 0, 0, 1, 2, 3, 4], 4, &mut buffer), (1, 4));
    assert_eq!(buffer, vec![1, 1, 2, 3, 4]);
}

#[test]
fn record_without_attributes_adds_nothing() {
    let mut buffer = vec![1u8];
    assert_eq!(append_attributes(&[], 4, &mut buffer), (0, 0));
    assert_eq!(append_attributes(&[9, 0, 0, 0], 4, &mut buffer), (0, 0));
    assert_eq!(append_attributes(&[0, 0, 0, 0, 1, 2, 3, 4], 4, &mut buffer), (0, 0));
    assert_eq!(buffer, vec![1]);
}
