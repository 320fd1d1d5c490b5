use ch32_data::chip::Arch;
use ch32_data::generator::pac::{contains_text, postprocess_pac_rs, renumber, replace_text, try_postprocess_pac_rs, PacPattern};

#[test]
fn pac_replace_text_is_left_to_right() {
    assert_eq!(replace_text("aaa", "aa", "b"), "ba");
    assert_eq!(replace_text("x] y] ", "] ", "]\n"), "x]\ny]\n");
    assert_eq!(replace_text("", "a", "b"), "");
    assert!(contains_text("abc", "bc"));
    assert!(contains_text("abc", ""));
    assert!(!contains_text("abc", "cd"));
}

#[test]
fn pac_renumber_discriminants_and_docs() {
    assert_eq!(
        renumber(PacPattern::Discriminant, "WWDG = 16 , PVD = 17 , X = 3 ,"),
        Some("WWDG = 0 , PVD = 1 , X = -13 ,".to_string())
    );
    assert_eq!(renumber(PacPattern::DocNumber, "# [doc = \"20 - TIM1\"]"), Some("# [doc = \"4 - TIM1\"]".to_string()));
    assert_eq!(renumber(PacPattern::VectorLength, "x : [Vector ; 60] ="), Some("x : [Vector ; 44] =".to_string()));
    assert_eq!(renumber(PacPattern::VectorLength, ": [Vector ; 3]"), None);
    assert_eq!(renumber(PacPattern::Discriminant, "A = 99999999999 ,"), None);
}

#[test]
fn pac_postprocess_riscv() {
    let src = "#![no_std] pub use cortex_m_rt :: interrupt ; unsafe impl cortex_m :: interrupt InterruptNumber for X {} static __INTERRUPTS : [Vector ; 18] = [Vector { _reserved : 0 } , Vector { _reserved : 0 } , Vector { _reserved : 0 } , Vector { _reserved : 0 } , Vector { _reserved : 0 } , Vector { _reserved : 0 } , Vector { _reserved : 0 } , Vector { _reserved : 0 } , Vector { _reserved : 0 } , Vector { _reserved : 0 } , Vector { _reserved : 0 } , Vector { _reserved : 0 } , Vector { _reserved : 0 } , Vector { _reserved : 0 } , Vector { _reserved : 0 } , Vector { _reserved : 0 } , Vector { _handler : A } , Vector { _handler : B } ,] ;";
    let out = try_postprocess_pac_rs(src, Arch::Riscv).unwrap();
    assert!(!out.contains("#!"));
    assert!(!out.contains("cortex_m_rt"));
    assert!(out.contains("unsafe impl crate InterruptNumber"));
    assert!(out.contains("__EXTERNAL_INTERRUPTS : [Vector ; 2]\n= [Vector { _handler : A }"));
    assert_eq!(postprocess_pac_rs(src.to_string(), Arch::Riscv), out);
}

#[test]
fn pac_postprocess_arm_renumbers() {
    let src = "pub enum Interrupt { # [doc = \"16 - WWDG\"] WWDG = 16 , } static __INTERRUPTS : [Vector ; 17] = [Vector { _reserved : 0 } , Vector { _reserved : 0 } , Vector { _reserved : 0 } , Vector { _reserved : 0 } , Vector { _reserved : 0 } , Vector { _reserved : 0 } , Vector { _reserved : 0 } , Vector { _reserved : 0 } , Vector { _reserved : 0 } , Vector { _reserved : 0 } , Vector { _reserved : 0 } , Vector { _reserved : 0 } , Vector { _reserved : 0 } , Vector { _reserved : 0 } , Vector { _reserved : 0 } , Vector { _reserved : 0 } , Vector { _handler : WWDG } ,] ;";
    let out = try_postprocess_pac_rs(src, Arch::Arm).unwrap();
    assert!(out.contains("# [doc = \"0 - WWDG\"]"));
    assert!(out.contains("WWDG = 0 ,"));
    assert!(out.contains("[Vector ; 1]\n= [Vector { _handler : WWDG }"));
    assert!(out.contains("# [doc = \"0 - WWDG\"]\nWWDG = 0 ,"));
}

#[test]
fn pac_postprocess_stops_on_leftover_reserved_vector() {
    let src = "static X : [Vector ; 17] = [Vector { _reserved : 0 } , Vector { _handler : A } ,] ;";
    assert_eq!(try_postprocess_pac_rs(src, Arch::Riscv), None);
}

#[test]
fn replace_text_with_empty_pattern_fills_every_gap() {
    assert_eq!(ch32_data::generator::pac::replace_text("abc", "", "-"), "-a-b-c-");
    assert_eq!(ch32_data::generator::pac::replace_text("", "", "-"), "-");
    assert_eq!(ch32_data::generator::pac::replace_text("a] b] ", "] ", "]\n"), "a]\nb]\n");
}
