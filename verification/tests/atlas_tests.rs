use gpui_ohos::atlas::{
    bytes_per_pixel, exceeds_limit, image_byte_len, scaled_size, AtlasError, AtlasKey, OhosAtlas, Raster, TextureKind,
    ATLAS_MAX_DIM, ATLAS_START_DIM,
};

fn key(id: u64, kind: TextureKind, is_image: bool) -> AtlasKey {
    AtlasKey { id, kind, is_image }
}

#[test]
fn pixel_sizes() {
    assert_eq!(bytes_per_pixel(TextureKind::Monochrome), 1);
    assert_eq!(bytes_per_pixel(TextureKind::Polychrome), 4);
    assert_eq!(bytes_per_pixel(TextureKind::Subpixel), 4);
    assert_eq!(image_byte_len(3, 5), 60);
    assert!(exceeds_limit(8193, 10, 8192));
    assert!(!exceeds_limit(8192, 8192, 8192));
    assert_eq!(scaled_size(4000, 1000, 2000), (2000, 500));
    assert_eq!(scaled_size(1000, 4000, 2000), (500, 2000));
    assert_eq!(scaled_size(10000, 1, 100), (100, 1));
}

#[test]
fn a_new_atlas_starts_small() {
    let atlas = OhosAtlas::new();
    assert_eq!(atlas.texture_size(TextureKind::Monochrome), (ATLAS_START_DIM, ATLAS_START_DIM));
    assert_eq!(atlas.texture_pixels(TextureKind::Polychrome).len(), (ATLAS_START_DIM * ATLAS_START_DIM * 4) as usize);
    assert!(!atlas.has_pending_uploads());
    assert_eq!(atlas.growth_limit(), ATLAS_MAX_DIM);
}

#[test]
fn the_device_limit_caps_growth() {
    let mut atlas = OhosAtlas::new();
    atlas.set_device_limit(4096);
    assert_eq!(atlas.growth_limit(), 4096);
    atlas.set_device_limit(1024);
    assert_eq!(atlas.growth_limit(), ATLAS_START_DIM);
    assert_eq!(atlas.scaling_limit(&key(1, TextureKind::Polychrome, true), 5000, 10), Some(ATLAS_START_DIM));
    assert_eq!(atlas.scaling_limit(&key(1, TextureKind::Polychrome, false), 5000, 10), None);
}

#[test]
fn inserted_tiles_are_found_and_uploaded() {
    let mut atlas = OhosAtlas::new();
    let k = key(7, TextureKind::Monochrome, false);
    let raster = Raster { width: 2, height: 2, bytes: vec![1, 2, 3, 4] };
    let tile = atlas.insert(&k, &raster).unwrap().unwrap();
    assert_eq!(tile.kind, TextureKind::Monochrome);
    // The region is exactly as wide as the raster and spans its shelf.
    assert_eq!(tile.bounds.width, 2);
    assert!(tile.bounds.height >= 2);
    assert_eq!(atlas.get(&k), Some(tile));
    let pixels = atlas.texture_pixels(TextureKind::Monochrome);
    let stride = ATLAS_START_DIM as usize;
    let (x, y) = (tile.bounds.x as usize, tile.bounds.y as usize);
    assert_eq!(&pixels[y * stride + x..y * stride + x + 2], &[1, 2]);
    assert_eq!(&pixels[(y + 1) * stride + x..(y + 1) * stride + x + 2], &[3, 4]);
    assert!(atlas.has_pending_uploads());
    let uploads = atlas.take_uploads();
    assert_eq!(uploads.len(), 1);
    assert_eq!(uploads[0].data.len(), 2 * tile.bounds.height as usize);
    assert_eq!(&uploads[0].data[..4], &[1, 2, 3, 4]);
    assert!(!atlas.has_pending_uploads());
    atlas.remove(&k);
    assert_eq!(atlas.get(&k), None);
}

#[test]
fn empty_rasters_place_nothing() {
    let mut atlas = OhosAtlas::new();
    let k = key(1, TextureKind::Polychrome, true);
    assert_eq!(atlas.insert(&k, &Raster { width: 0, height: 4, bytes: vec![] }), Ok(None));
    assert_eq!(atlas.get(&k), None);
}

#[test]
fn get_or_insert_builds_once() {
    let mut atlas = OhosAtlas::new();
    let k = key(3, TextureKind::Subpixel, false);
    let first = atlas
        .get_or_insert_with(&k, || Ok(Some(Raster { width: 1, height: 1, bytes: vec![9, 9, 9, 9] })), |r, _| r)
        .unwrap();
    let second = atlas.get_or_insert_with(&k, || Err("must not build".to_string()), |r, _| r).unwrap();
    assert_eq!(first, second);
    let failed = atlas.get_or_insert_with(&key(4, TextureKind::Subpixel, false), || Err("broken".to_string()), |r, _| r);
    assert_eq!(failed, Err(AtlasError::Build("broken".to_string())));
}

#[test]
fn a_removed_tile_gives_its_space_back() {
    let mut atlas = OhosAtlas::new();
    atlas.set_device_limit(ATLAS_START_DIM);
    let side = ATLAS_START_DIM as i32;
    let whole = Raster { width: side, height: side, bytes: vec![9; (side * side) as usize] };
    let first = key(1, TextureKind::Monochrome, false);
    let second = key(2, TextureKind::Monochrome, false);
    atlas.insert(&first, &whole).unwrap().unwrap();
    atlas.remove(&first);
    assert_eq!(atlas.get(&first), None);
    let tile = atlas.insert(&second, &whole).unwrap().unwrap();
    assert_eq!((tile.bounds.x, tile.bounds.y, tile.bounds.width), (0, 0, side));
    assert_eq!(atlas.texture_size(TextureKind::Monochrome), (ATLAS_START_DIM, ATLAS_START_DIM));
}

#[test]
fn placing_a_tile_keeps_the_others() {
    let mut atlas = OhosAtlas::new();
    let rows = |fill: u8| Raster { width: 3, height: 2, bytes: vec![fill; 6] };
    let earlier: Vec<_> = (0..20u64)
        .map(|id| atlas.insert(&key(id, TextureKind::Monochrome, false), &rows(id as u8 + 1)).unwrap().unwrap())
        .collect();
    atlas.insert(&key(99, TextureKind::Monochrome, false), &Raster { width: 40, height: 40, bytes: vec![200; 1600] }).unwrap().unwrap();
    let stride = atlas.texture_size(TextureKind::Monochrome).0 as usize;
    let pixels = atlas.texture_pixels(TextureKind::Monochrome);
    for (id, tile) in earlier.iter().enumerate() {
        let (x, y) = (tile.bounds.x as usize, tile.bounds.y as usize);
        for r in 0..2 {
            assert_eq!(&pixels[(y + r) * stride + x..(y + r) * stride + x + 3], &[id as u8 + 1; 3]);
        }
    }
}
