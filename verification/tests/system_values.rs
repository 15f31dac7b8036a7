use mempe::memory;
use windows::Win32::System::Memory as system;

#[test]
fn memory_values_are_those_of_the_system() {
    assert_eq!(memory::MEM_COMMIT, system::MEM_COMMIT.0);
    assert_eq!(memory::MEM_PRIVATE, system::MEM_PRIVATE.0);
    assert_eq!(memory::MEM_MAPPED, system::MEM_MAPPED.0);
    assert_eq!(memory::MEM_IMAGE, system::MEM_IMAGE.0);
    assert_eq!(memory::PAGE_NOACCESS, system::PAGE_NOACCESS.0);
    assert_eq!(memory::PAGE_READONLY, system::PAGE_READONLY.0);
    assert_eq!(memory::PAGE_READWRITE, system::PAGE_READWRITE.0);
    assert_eq!(memory::PAGE_WRITECOPY, system::PAGE_WRITECOPY.0);
    assert_eq!(memory::PAGE_EXECUTE, system::PAGE_EXECUTE.0);
    assert_eq!(memory::PAGE_EXECUTE_READ, system::PAGE_EXECUTE_READ.0);
    assert_eq!(
        memory::PAGE_EXECUTE_READWRITE,
        system::PAGE_EXECUTE_READWRITE.0
    );
    assert_eq!(
        memory::PAGE_EXECUTE_WRITECOPY,
        system::PAGE_EXECUTE_WRITECOPY.0
    );
    assert_eq!(memory::PAGE_GUARD, system::PAGE_GUARD.0);
}
