use wcet_paths::{get_task_list, irq_from_bit_vector, RP2040Interrupts};

#[test]
fn interrupt_numbers_convert() {
    assert_eq!(RP2040Interrupts::try_from(0u8), Ok(RP2040Interrupts::TIMER_IRQ_0));
    assert_eq!(RP2040Interrupts::try_from(13u8), Ok(RP2040Interrupts::IO_IRQ_BANK0));
    assert_eq!(RP2040Interrupts::try_from(25u8), Ok(RP2040Interrupts::RTC_IRQ));
    assert_eq!(RP2040Interrupts::try_from(26u8), Err("Invalid"));
    assert_eq!(RP2040Interrupts::try_from(255u8), Err("Invalid"));
}

#[test]
fn bit_vector_lists_set_interrupts_lowest_first() {
    let irqs = irq_from_bit_vector((1 << 13) | (1 << 1) | 1 | (1 << 25));
    assert_eq!(
        irqs,
        vec![
            RP2040Interrupts::TIMER_IRQ_0,
            RP2040Interrupts::TIMER_IRQ_1,
            RP2040Interrupts::IO_IRQ_BANK0,
            RP2040Interrupts::RTC_IRQ
        ]
    );
}

#[test]
fn empty_bit_vector_lists_nothing() {
    assert!(irq_from_bit_vector(0).is_empty());
}

#[test]
fn task_table_is_fixed() {
    let list = get_task_list();
    assert_eq!(list.len(), 4);
    assert_eq!(list[0].name, "button_handler");
    assert_eq!(list[0].interrupt, "IO_IRQ_BANK0");
    assert_eq!((list[0].priority, list[0].deadline, list[0].interarival), (2, 125000, 125000));
    assert_eq!(list[1].name, "debounce_button");
    assert_eq!(list[1].interrupt, "TIMER_IRQ_1");
    assert_eq!((list[1].priority, list[1].deadline, list[1].interarival), (3, 1230000, 37500000));
    assert_eq!(list[2].name, "alarm0_handler");
    assert_eq!(list[2].interrupt, "TIMER_IRQ_0");
    assert_eq!((list[2].priority, list[2].deadline, list[2].interarival), (1, 1250000, 62500000));
    assert_eq!(list[3].name, "alarm2_handler");
    assert_eq!(list[3].interrupt, "TIMER_IRQ_2");
    assert_eq!((list[3].priority, list[3].deadline, list[3].interarival), (4, 125000, 125000000));
}
