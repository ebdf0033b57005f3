use base64::Engine;
use beatcrate::profile::{avatar_path, avatar_reference, bytes_match_format, check_avatar, path_basename, AvatarError};

const PNG: [u8; 8] = [0x89, b'P', b'N', b'G', 0x0D, 0x0A, 0x1A, 0x0A];

fn data_url(ext: &str, bytes: &[u8]) -> String {
    format!("data:image/{ext};base64,{}", base64::engine::general_purpose::STANDARD.encode(bytes))
}

#[test]
fn magic_bytes_match_the_declared_format() {
    assert!(bytes_match_format(&PNG, "png"));
    assert!(!bytes_match_format(&PNG[..7], "png"));
    assert!(bytes_match_format(&[0xFF, 0xD8, 0xFF, 0x00], "jpeg"));
    assert!(bytes_match_format(&[0xFF, 0xD8, 0xFF], "jpg"));
    assert!(bytes_match_format(b"GIF89a...", "gif"));
    assert!(bytes_match_format(b"GIF87a", "gif"));
    assert!(bytes_match_format(b"RIFF\0\0\0\0WEBPVP8 ", "webp"));
    assert!(!bytes_match_format(b"RIFF\0\0\0\0WEB", "webp"));
    assert!(!bytes_match_format(&PNG, "bmp"));
}

#[test]
fn accepted_avatar() {
    let mut png = PNG.to_vec();
    png.extend_from_slice(b"rest of image");
    let img = match check_avatar(&data_url("png", &png)) {
        Ok(img) => img,
        Err(_) => panic!("a real png is accepted"),
    };
    assert_eq!(img.ext, "png");
    assert_eq!(img.bytes, png);
    let jpeg = vec![0xFF, 0xD8, 0xFF, 0xE0];
    let img = match check_avatar(&data_url("jpeg", &jpeg)) {
        Ok(img) => img,
        Err(_) => panic!("a real jpeg is accepted"),
    };
    assert_eq!(img.ext, "jpg", "jpeg is stored as jpg");
}

#[test]
fn refused_avatars() {
    let invalid = |u: &str| matches!(check_avatar(u), Err(AvatarError::Invalid));
    assert!(invalid("data:text/plain;base64,aGk="));
    assert!(invalid("data:image/png,plain"));
    assert!(invalid(&data_url("bmp", &PNG)));
    assert!(invalid("data:image/png;base64,not base64!"));
    assert!(invalid(&data_url("gif", &PNG)), "label does not match the bytes");
    let big = format!("data:image/png;base64,{}", "A".repeat(12_000_000));
    assert!(matches!(check_avatar(&big), Err(AvatarError::TooLarge)));
    assert_eq!(AvatarError::TooLarge.message(), "image is too large (max 8 MB)");
    assert_eq!(AvatarError::Invalid.message(), "invalid image data");
}

#[test]
fn avatar_references_stay_inside_uploads() {
    assert_eq!(path_basename("/uploads/avatar_1.png"), Ok("avatar_1.png"));
    assert_eq!(path_basename("avatar_1.png"), Ok("avatar_1.png"));
    assert_eq!(path_basename("/uploads/.."), Err("invalid avatar filename".to_string()));
    assert_eq!(path_basename("/uploads/"), Err("invalid avatar filename".to_string()));
    assert_eq!(path_basename("a\\b"), Err("invalid avatar filename".to_string()));
    assert_eq!(avatar_path("/data", "/uploads/a.png"), Ok("/data/uploads/a.png".to_string()));
    assert_eq!(avatar_reference("avatar_9.jpg"), "/uploads/avatar_9.jpg");
}
