use blobtree::data_fixture::DataFixture;

#[test]
fn different_seeds_give_different_data() {
    let fixture1 = DataFixture::new(0);
    let fixture2 = DataFixture::new(1);
    let mut data1 = vec![0; 1024 * 1024];
    let mut data2 = vec![0; 1024 * 1024];
    fixture1.generate(0, &mut data1);
    fixture2.generate(0, &mut data2);
    assert_ne!(data1, data2);
}

#[test]
fn same_seed_gives_same_data() {
    let fixture1 = DataFixture::new(0);
    let fixture2 = DataFixture::new(0);
    let mut data1 = vec![0; 1024 * 1024];
    let mut data2 = vec![0; 1024 * 1024];
    fixture1.generate(0, &mut data1);
    fixture2.generate(0, &mut data2);
    assert_eq!(data1, data2);
}

#[test]
fn empty() {
    let fixture = DataFixture::new(0);
    let mut data = vec![0; 0];
    fixture.generate(0, &mut data);
    assert_eq!(data, Vec::<u8>::new());
}

#[test]
fn one_byte() {
    let fixture = DataFixture::new(0);
    let mut data = vec![0; 1];
    fixture.generate(0, &mut data);
    assert_ne!(0, data[0]);
}

#[test]
fn its_not_just_zeroes() {
    let fixture = DataFixture::new(0);
    let mut data = vec![0; 1024 * 1024];
    fixture.generate(0, &mut data);
    let num_zeroes = data.iter().filter(|&&x| x == 0).count();
    assert_eq!(4059, num_zeroes);
}

#[test]
fn generating_data_in_sections_generates_same_data_as_generating_whole_data() {
    let fixture = DataFixture::new(0);
    let data_size: u64 = 2048 * 3 + 655;
    let mut data1 = vec![0; data_size as usize];
    let mut data2 = vec![0; data_size as usize];
    fixture.generate(0, &mut data1);
    let section_size: u64 = 3;
    let mut offset = 0u64;
    while offset < data2.len() as u64 {
        let section_size = section_size.min(data2.len() as u64 - offset);
        let mut section = vec![0; section_size as usize];
        fixture.generate(offset, &mut section);
        data2[offset as usize..(offset + section_size) as usize].copy_from_slice(&section);
        offset += section_size;
    }
    assert_eq!(data1, data2);
}

#[test]
fn get_empty() {
    let fixture = DataFixture::new(0);
    let data = fixture.get(0);
    assert_eq!(data, Vec::<u8>::new());
}

#[test]
fn data_fixture_one_byte() {
    let fixture = DataFixture::new(0);
    let data = fixture.get(1);
    assert_eq!(1, data.len());
    assert_ne!(0, data[0]);
}

#[test]
fn get_returns_same_data_as_generate() {
    let fixture = DataFixture::new(0);
    let mut data = vec![0; 1024 * 1024];
    fixture.generate(0, &mut data);
    assert_eq!(data, fixture.get(1024 * 1024));
}
