use vstd::prelude::*;

verus! {

/// The interrupt lines of the RP2040, in the order of their numbers.
#[allow(non_camel_case_types)]
#[derive(Debug, PartialEq, Eq, Structural, Clone, Copy)]
pub enum RP2040Interrupts {
    TIMER_IRQ_0,
    TIMER_IRQ_1,
    TIMER_IRQ_2,
    TIMER_IRQ_3,
    PWM_IRQ_WRAP,
    USBCTRL_IRQ,
    XIP_IRQ,
    PIO0_IRQ_0,
    PIO0_IRQ_1,
    PIO1_IRQ_0,
    PIO1_IRQ_1,
    DMA_IRQ_0,
    DMA_IRQ_1,
    IO_IRQ_BANK0,
    IO_IRQ_QSPI,
    SIO_IRQ_PROC0,
    SIO_IRQ_PROC1,
    CLOCKS_IRQ,
    SPI0_IRQ,
    SPI1_IRQ,
    UART0_IRQ,
    UART1_IRQ,
    ADC_IRQ_FIFO,
    I2C0_IRQ,
    I2C1_IRQ,
    RTC_IRQ,
}

/// The interrupt with number `n`, if there is one.
pub open spec fn interrupt_of(n: u8) -> Option<RP2040Interrupts> {
    match n {
        0 => Some(RP2040Interrupts::TIMER_IRQ_0),
        1 => Some(RP2040Interrupts::TIMER_IRQ_1),
        2 => Some(RP2040Interrupts::TIMER_IRQ_2),
        3 => Some(RP2040Interrupts::TIMER_IRQ_3),
        4 => Some(RP2040Interrupts::PWM_IRQ_WRAP),
        5 => Some(RP2040Interrupts::USBCTRL_IRQ),
        6 => Some(RP2040Interrupts::XIP_IRQ),
        7 => Some(RP2040Interrupts::PIO0_IRQ_0),
        8 => Some(RP2040Interrupts::PIO0_IRQ_1),
        9 => Some(RP2040Interrupts::PIO1_IRQ_0),
        10 => Some(RP2040Interrupts::PIO1_IRQ_1),
        11 => Some(RP2040Interrupts::DMA_IRQ_0),
        12 => Some(RP2040Interrupts::DMA_IRQ_1),
        13 => Some(RP2040Interrupts::IO_IRQ_BANK0),
        14 => Some(RP2040Interrupts::IO_IRQ_QSPI),
        15 => Some(RP2040Interrupts::SIO_IRQ_PROC0),
        16 => Some(RP2040Interrupts::SIO_IRQ_PROC1),
        17 => Some(RP2040Interrupts::CLOCKS_IRQ),
        18 => Some(RP2040Interrupts::SPI0_IRQ),
        19 => Some(RP2040Interrupts::SPI1_IRQ),
        20 => Some(RP2040Interrupts::UART0_IRQ),
        21 => Some(RP2040Interrupts::UART1_IRQ),
        22 => Some(RP2040Interrupts::ADC_IRQ_FIFO),
        23 => Some(RP2040Interrupts::I2C0_IRQ),
        24 => Some(RP2040Interrupts::I2C1_IRQ),
        25 => Some(RP2040Interrupts::RTC_IRQ),
        _ => None,
    }
}

impl TryFrom<u8> for RP2040Interrupts {
    type Error = &'static str;

    fn try_from(value: u8) -> (r: Result<RP2040Interrupts, &'static str>) {
        match value {
            0 => Ok(RP2040Interrupts::TIMER_IRQ_0),
            1 => Ok(RP2040Interrupts::TIMER_IRQ_1),
            2 => Ok(RP2040Interrupts::TIMER_IRQ_2),
            3 => Ok(RP2040Interrupts::TIMER_IRQ_3),
            4 => Ok(RP2040Interrupts::PWM_IRQ_WRAP),
            5 => Ok(RP2040Interrupts::USBCTRL_IRQ),
            6 => Ok(RP2040Interrupts::XIP_IRQ),
            7 => Ok(RP2040Interrupts::PIO0_IRQ_0),
            8 => Ok(RP2040Interrupts::PIO0_IRQ_1),
            9 => Ok(RP2040Interrupts::PIO1_IRQ_0),
            10 => Ok(RP2040Interrupts::PIO1_IRQ_1),
            11 => Ok(RP2040Interrupts::DMA_IRQ_0),
            12 => Ok(RP2040Interrupts::DMA_IRQ_1),
            13 => Ok(RP2040Interrupts::IO_IRQ_BANK0),
            14 => Ok(RP2040Interrupts::IO_IRQ_QSPI),
            15 => Ok(RP2040Interrupts::SIO_IRQ_PROC0),
            16 => Ok(RP2040Interrupts::SIO_IRQ_PROC1),
            17 => Ok(RP2040Interrupts::CLOCKS_IRQ),
            18 => Ok(RP2040Interrupts::SPI0_IRQ),
            19 => Ok(RP2040Interrupts::SPI1_IRQ),
            20 => Ok(RP2040Interrupts::UART0_IRQ),
            21 => Ok(RP2040Interrupts::UART1_IRQ),
            22 => Ok(RP2040Interrupts::ADC_IRQ_FIFO),
            23 => Ok(RP2040Interrupts::I2C0_IRQ),
            24 => Ok(RP2040Interrupts::I2C1_IRQ),
            25 => Ok(RP2040Interrupts::RTC_IRQ),
            _ => Err("Invalid"),
        }
    }
}

impl vstd::std_specs::convert::TryFromSpecImpl<u8> for RP2040Interrupts {
    open spec fn obeys_try_from_spec() -> bool {
        true
    }

    open spec fn try_from_spec(value: u8) -> Result<RP2040Interrupts, &'static str> {
        match interrupt_of(value) {
            Some(irq) => Ok(irq),
            None => Err("Invalid"),
        }
    }
}

/// The interrupts whose bits are set among the lowest `i` bits of
/// `bit_vector`, lowest bit first.
pub open spec fn interrupts_below(bit_vector: u32, i: nat) -> Seq<RP2040Interrupts>
    decreases i,
{
    if i == 0 {
        Seq::empty()
    } else {
        let below = interrupts_below(bit_vector, (i - 1) as nat);
        if i - 1 < 32 && bit_vector & (1u32 << (i - 1) as u32) != 0 {
            match interrupt_of((i - 1) as u8) {
                Some(irq) => below.push(irq),
                None => below,
            }
        } else {
            below
        }
    }
}

/// The interrupts whose bits are set in `bit_vector`, lowest bit first.
/// Only the lowest 26 bits stand for interrupts.
pub fn irq_from_bit_vector(bit_vector: u32) -> (r: Vec<RP2040Interrupts>)
    requires
        bit_vector < 0x400_0000,
    ensures
        r@ == interrupts_below(bit_vector, 32),
{
    let mut ret: Vec<RP2040Interrupts> = Vec::new();
    let mut i: u32 = 0;
    while i < 32
        invariant
            i <= 32,
            bit_vector < 0x400_0000,
            ret@ == interrupts_below(bit_vector, i as nat),
        decreases 32 - i,
    {
        let mask: u32 = 1u32 << i;
        if mask & bit_vector != 0 {
            assert(i < 26) by (bit_vector)
                requires
                    i < 32,
                    mask == 1u32 << i,
                    mask & bit_vector != 0,
                    bit_vector < 0x400_0000,
            ;
            assert(bit_vector & mask != 0) by (bit_vector)
                requires
                    mask & bit_vector != 0,
            ;
            let irq = RP2040Interrupts::try_from(i as u8).expect("error");
            ret.push(irq);
        } else {
            assert(bit_vector & mask == 0) by (bit_vector)
                requires
                    mask & bit_vector == 0,
            ;
        }
        i += 1;
    }
    ret
}

} // verus!
