use tinydb::bufpage::PAGE_SIZE;
use tinydb::pager::{Error, Header, MemPage, Pager, PageNumber, HEADER_SIZE};

fn open_test_pager() -> Result<Pager, Error> {
    let empty: Vec<u8> = Vec::new();
    Pager::open(&empty)
}

#[test]
fn test_first_page_not_override_header() -> Result<(), Error> {
    let mut pager = open_test_pager()?;
    let page_number = pager.allocate_page();
    let mem_page = MemPage {
        data: vec![1; PAGE_SIZE],
        number: page_number,
    };
    pager.write_page(&mem_page)?;

    assert_eq!(pager.read_header()?, Header::default());
    assert_eq!(mem_page, pager.read_page(page_number)?);

    let image = pager.image();
    assert_eq!(&image[0..6], b"Tinydb");
    assert!(image[6..HEADER_SIZE].iter().all(|b| *b == 0));
    assert_eq!(image.len(), HEADER_SIZE + PAGE_SIZE);
    Ok(())
}

#[test]
fn test_open_existed_database_file() -> Result<(), Error> {
    let image = {
        let mut pager = open_test_pager()?;
        let page_number = pager.allocate_page();
        let mem_page = MemPage {
            number: page_number,
            data: vec![0; PAGE_SIZE],
        };
        pager.write_page(&mem_page)?;
        pager.image()
    };

    let mut pager = Pager::open(&image)?;
    let page_number = pager.allocate_page();
    let mem_page = MemPage {
        number: page_number,
        data: vec![0; PAGE_SIZE],
    };
    pager.write_page(&mem_page)?;

    assert_eq!(2, pager.size()?);
    Ok(())
}

#[test]
fn test_pager_size() -> Result<(), Error> {
    let mut pager = open_test_pager()?;
    let total_pages = 20;

    for i in 0..total_pages {
        let page_number: PageNumber = pager.allocate_page();
        let mem_page = MemPage {
            number: page_number,
            data: vec![i; PAGE_SIZE],
        };
        pager.write_page(&mem_page)?;
    }

    assert_eq!(total_pages as u32, pager.size()?);
    Ok(())
}

#[test]
fn test_write_read_pages() -> Result<(), Error> {
    let mut pager = open_test_pager()?;
    let total_pages = 20;

    for i in 0..total_pages {
        let page_number: PageNumber = pager.allocate_page();
        let mem_page = MemPage {
            number: page_number,
            data: vec![i; PAGE_SIZE],
        };
        pager.write_page(&mem_page)?;

        let page = pager.read_page(page_number)?;

        assert_eq!(mem_page, page);
    }
    Ok(())
}

#[test]
fn test_read_invalid_page() -> Result<(), Error> {
    let pager = open_test_pager()?;
    let result = pager.read_page(1);
    assert_eq!(Error::IncorrectPageNumber, result.unwrap_err());
    Ok(())
}

#[test]
fn test_read_corrupted_header() -> Result<(), Error> {
    let image = vec![0u8; HEADER_SIZE];
    let result = Pager::open(&image);
    assert!(matches!(result, Err(Error::CorruptedFile)));
    Ok(())
}

#[test]
fn test_open_new_pager() -> Result<(), Error> {
    let pager = open_test_pager()?;
    let header = pager.read_header()?;
    assert_eq!(header, Header::default());
    Ok(())
}

#[test]
fn allocate_first_page_is_one() {
    let mut pager = open_test_pager().unwrap();
    assert_eq!(pager.allocate_page(), 1);
    assert_eq!(pager.allocate_page(), 2);
}

#[test]
fn write_then_read_returns_written_bytes() {
    let mut pager = open_test_pager().unwrap();
    let n = pager.allocate_page();
    let mut data = vec![0u8; PAGE_SIZE];
    data[0] = 7;
    data[PAGE_SIZE - 1] = 9;
    pager.write_page(&MemPage { number: n, data: data.clone() }).unwrap();
    assert_eq!(pager.read_page(n).unwrap().data, data);
}

#[test]
fn page_zero_and_past_end_are_refused() {
    let mut pager = open_test_pager().unwrap();
    pager.allocate_page();
    assert_eq!(pager.read_page(0).unwrap_err(), Error::IncorrectPageNumber);
    assert_eq!(pager.read_page(2).unwrap_err(), Error::IncorrectPageNumber);
    let page = MemPage { number: 3, data: vec![0u8; PAGE_SIZE] };
    assert_eq!(pager.write_page(&page).unwrap_err(), Error::IncorrectPageNumber);
}

#[test]
fn image_round_trips_through_open() {
    let mut pager = open_test_pager().unwrap();
    for i in 0..3u8 {
        let n = pager.allocate_page();
        pager.write_page(&MemPage { number: n, data: vec![i + 1; PAGE_SIZE] }).unwrap();
    }
    let image = pager.image();
    assert_eq!(image.len(), HEADER_SIZE + 3 * PAGE_SIZE);
    assert_eq!(Pager::offset(2), (HEADER_SIZE + PAGE_SIZE) as u64);
    let reopened = Pager::open(&image).unwrap();
    assert_eq!(reopened.size().unwrap(), 3);
    for i in 0..3u32 {
        assert_eq!(reopened.read_page(i + 1).unwrap().data, vec![i as u8 + 1; PAGE_SIZE]);
    }
}

#[test]
fn short_or_wrong_magic_is_corrupted() {
    assert_eq!(Pager::open(b"Tiny").err(), Some(Error::CorruptedFile));
    let mut image = vec![0u8; HEADER_SIZE];
    image[..6].copy_from_slice(b"Tinydc");
    assert_eq!(Pager::open(&image).err(), Some(Error::CorruptedFile));
    image[..6].copy_from_slice(b"Tinydb");
    assert_eq!(Pager::open(&image).unwrap().size().unwrap(), 0);
}

#[test]
fn header_serializes_to_magic_and_zeros() {
    let bytes = Header::default().serialize().unwrap();
    assert_eq!(bytes.len(), HEADER_SIZE);
    assert_eq!(&bytes[..6], b"Tinydb");
    assert!(bytes[6..].iter().all(|b| *b == 0));
    assert_eq!(Header::deserialize(&bytes).unwrap(), Header::default());
    assert!(matches!(Header::deserialize(b"Tin"), Err(Error::Deserialize(_))));
}
